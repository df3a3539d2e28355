use enderecobr_rs::busca_fuzzy::busca_logradouro::{
    GeocodeBrIndexer, PartesIndexador, ScoredDoc, SearchParams,
};
use enderecobr_rs::busca_fuzzy::compressao::{arquivo_do_indice, bytes_do_indice};
use enderecobr_rs::busca_fuzzy::indice_invertido::Proporcao;

/// Chave inteira de uma similaridade em [0, 1]: a ordem dos bits de um
/// `f32` não negativo é a ordem dos valores.
fn chave(x: f32) -> u32 {
    x.to_bits()
}

fn jaro(a: &str, b: &str) -> u32 {
    chave(strsim::jaro(a, b) as f32)
}

fn proporcao(x: f32) -> Proporcao {
    Proporcao { por_milhao: (x * 1_000_000.0).round() as u32 }
}

type Params = SearchParams<fn(&str, &str) -> u32>;

fn params_padrao() -> Params {
    SearchParams {
        sobreposicao_min_tokens: Some(proporcao(0.5)),
        similaridade_min: Some(chave(0.8)),
        max_df_freq: Some(proporcao(0.1)),
        similaridade_fun: jaro,
        min_qnt_index_scan: Some(50),
    }
}

fn params() -> Params {
    SearchParams {
        similaridade_min: Some(chave(0.0)), // facilita match
        ..params_padrao()
    }
}

fn build_index() -> GeocodeBrIndexer {
    let mut idx = GeocodeBrIndexer::new(3);

    idx.add(
        "SP",
        "SAO PAULO",
        "RUA DAS FLORES",
        Some("CENTRO"),
        Some("70000000"),
    );

    idx.add(
        "SP",
        "SAO PAULO",
        "AVENIDA PAULISTA",
        Some("CENTRO"),
        Some("70000001"),
    );

    idx.add(
        "SP",
        "SAO PAULO",
        "RUA DAS ACACIAS",
        Some("SUL"),
        Some("70000002"),
    );

    idx.finalizar();
    idx
}

fn assert_texto_busca(scored: Option<ScoredDoc>, esperado: &str) {
    assert_eq!(scored.map(|x| x.texto), Some(esperado));
}

#[test]
fn busca_basica_sem_filtros() {
    let idx = build_index();

    let res = idx.busca("SP", "SAO PAULO", "RUA DAS FLORES", None, None, &params());
    assert_texto_busca(res, "RUA DAS FLORES");
}

#[test]
fn busca_filtrando_por_cep() {
    let idx = build_index();

    let res = idx.busca(
        "SP",
        "SAO PAULO",
        "RUA DAS FLORES",
        None,
        Some("70000000"),
        &params(),
    );
    assert_texto_busca(res, "RUA DAS FLORES");
}

#[test]
fn busca_filtrando_por_localidade() {
    let idx = build_index();

    let res = idx.busca(
        "SP",
        "SAO PAULO",
        "RUA DAS FLORES",
        Some("CENTRO"),
        None,
        &params(),
    );

    assert_texto_busca(res, "RUA DAS FLORES");
}

#[test]
fn busca_intersecao_vazia_retorna_none() {
    let idx = build_index();

    // CEP de um bairro + localidade de outro
    let res = idx.busca(
        "SP",
        "SAO PAULO",
        "RUA DAS FLORES",
        Some("Sul"),
        Some("70000000"),
        &params(),
    );

    assert!(res.is_none());
}

#[test]
fn busca_municipio_inexistente() {
    let idx = build_index();

    let res = idx.busca(
        "SP",
        "CIDADE INEXISTENTE",
        "RUA DAS FLORES",
        None,
        None,
        &params(),
    );

    assert!(res.is_none());
}

#[test]
fn scored_doc_ordena_por_score_depois_doc() {
    let a = ScoredDoc {
        texto: "A",
        score: chave(0.9),
        doc: 1,
    };

    let b = ScoredDoc {
        texto: "B",
        score: chave(0.9),
        doc: 2,
    };

    assert!(a < b);
}

#[test]
fn obter_ids_validos_sem_filtros() {
    let idx = build_index();

    let key = (
        idx.mun_pool().get_str("SAO PAULO").unwrap(),
        idx.est_pool().get_str("SP").unwrap(),
    );

    let mun = idx.indice_municipio(key).unwrap();

    let res = idx.obter_ids_validos(None, None, mun);
    assert!(res.is_none());
}

#[test]
fn salvar_e_carregar_roundtrip() {
    let idx = build_index();

    let mut loaded = GeocodeBrIndexer::de_partes(idx.partes()).unwrap();
    loaded.preparar_pools();

    let res = loaded.busca("SP", "SAO PAULO", "RUA DAS FLORES", None, None, &params());

    assert_texto_busca(res, "RUA DAS FLORES");
}

#[test]
fn caminho_sequencial_quando_slice_pequeno() {
    let idx = build_index();

    let mut p = params();
    p.min_qnt_index_scan = Some(usize::MAX); // força caminho sequencial

    let res = idx.busca("SP", "SAO PAULO", "AVENIDA PAULISTA", None, None, &p);

    assert_texto_busca(res, "AVENIDA PAULISTA");
}

#[test]
fn caminho_pelo_indice_invertido() {
    let idx = build_index();

    let mut p = params();
    p.min_qnt_index_scan = None; // sempre usa o índice

    let res = idx.busca("SP", "SAO PAULO", "RUA DAS FLORES", None, None, &p);
    assert_texto_busca(res, "RUA DAS FLORES");

    let res = idx.busca("sp", "são paulo", "avenida paulista", None, None, &p);
    assert_texto_busca(res, "AVENIDA PAULISTA");

    // com filtro de CEP pelo índice: só o logradouro do CEP
    let res = idx.busca("SP", "SAO PAULO", "RUA DAS", None, Some("70000002"), &p);
    assert_texto_busca(res, "RUA DAS ACACIAS");
}

#[test]
fn busca_devolve_id_e_score() {
    let idx = build_index();
    let res = idx
        .busca("SP", "SAO PAULO", "RUA DAS FLORES", None, None, &params())
        .unwrap();
    assert_eq!(res.doc, 0);
    assert_eq!(res.score, chave(1.0));
    assert_eq!(idx.logr_pool().get(res.doc), res.texto);
}

#[test]
fn similaridade_minima_alta_descarta_tudo() {
    let idx = build_index();
    let mut p = params();
    p.similaridade_min = Some(chave(0.99));
    let res = idx.busca("SP", "SAO PAULO", "RUA XYZ", None, None, &p);
    assert!(res.is_none());
}

#[test]
fn empate_fica_com_o_maior_id() {
    let idx = build_index();
    let mut p = params();
    p.similaridade_fun = |_a: &str, _b: &str| 7;
    let res = idx.busca("SP", "SAO PAULO", "QUALQUER", None, None, &p).unwrap();
    assert_eq!(res.doc, 2);
    assert_eq!(res.texto, "RUA DAS ACACIAS");
    assert_eq!(res.score, 7);
}

#[test]
fn estado_inexistente_ou_cep_desconhecido() {
    let idx = build_index();
    assert!(idx
        .busca("RJ", "SAO PAULO", "RUA DAS FLORES", None, None, &params())
        .is_none());
    // CEP desconhecido: filtro ignorado
    let res = idx.busca("SP", "SAO PAULO", "RUA DAS FLORES", None, Some("99999999"), &params());
    assert_texto_busca(res, "RUA DAS FLORES");
    // CEP inválido: filtro ignorado
    let res = idx.busca("SP", "SAO PAULO", "RUA DAS FLORES", None, Some("abc"), &params());
    assert_texto_busca(res, "RUA DAS FLORES");
}

#[test]
fn ids_validos_com_filtros() {
    let idx = build_index();
    let key = (
        idx.mun_pool().get_str("SAO PAULO").unwrap(),
        idx.est_pool().get_str("SP").unwrap(),
    );
    let mun = idx.indice_municipio(key).unwrap();
    assert_eq!(idx.obter_ids_validos(Some("centro"), None, mun), Some(vec![0, 1]));
    assert_eq!(idx.obter_ids_validos(None, Some("70000001"), mun), Some(vec![1]));
    assert_eq!(
        idx.obter_ids_validos(Some("CENTRO"), Some("70000001"), mun),
        Some(vec![1])
    );
    assert_eq!(
        idx.obter_ids_validos(Some("SUL"), Some("70000001"), mun),
        Some(vec![])
    );
    assert!(idx.indice_municipio((9, 9)).is_none());
}

#[test]
fn preparar_pools_reconstroi_os_indices() {
    let mut idx = build_index();
    idx.preparar_pools();
    assert_eq!(idx.mun_pool().get_str("SAO PAULO"), Some(0));
    assert_eq!(idx.loc_pool().get_str("SUL"), Some(1));
    let res = idx.busca("SP", "SAO PAULO", "RUA DAS FLORES", None, None, &params());
    assert_texto_busca(res, "RUA DAS FLORES");
}

#[test]
fn logradouro_repetido_no_mesmo_municipio() {
    let mut idx = GeocodeBrIndexer::new(3);
    idx.add("SP", "SAO PAULO", "RUA A", Some("X"), Some("01000000"));
    idx.add("SP", "SAO PAULO", "RUA A", Some("X"), Some("01000000"));
    idx.add("SP", "SANTOS", "RUA A", None, None);
    idx.finalizar();
    let key = (
        idx.mun_pool().get_str("SAO PAULO").unwrap(),
        idx.est_pool().get_str("SP").unwrap(),
    );
    let mun = idx.indice_municipio(key).unwrap();
    assert_eq!(idx.obter_ids_validos(Some("X"), None, mun), Some(vec![0]));
    assert_eq!(mun.idx_logradouro().docs, vec![0]);
    assert_eq!(idx.lista_indices().len(), 2);
    let res = idx.busca("SP", "SANTOS", "RUA A", None, None, &params()).unwrap();
    assert_eq!(res.doc, 0);
}

fn remontar(p: PartesIndexador) -> Option<GeocodeBrIndexer> {
    GeocodeBrIndexer::de_partes(p)
}

#[test]
fn indexador_remontado_das_partes_busca_igual() {
    let idx = build_index();
    let mut copia = remontar(idx.partes()).unwrap();
    copia.preparar_pools();
    let mut p = params();
    for scan in [Some(usize::MAX), None] {
        p.min_qnt_index_scan = scan;
        for (logr, loc, cep) in [
            ("RUA DAS FLORES", None, None),
            ("avenida paulista", Some("centro"), None),
            ("RUA DAS", None, Some("70000002")),
            ("RUA", Some("SUL"), Some("70000000")),
        ] {
            let a = idx.busca("SP", "SAO PAULO", logr, loc, cep, &p);
            let b = copia.busca("SP", "SAO PAULO", logr, loc, cep, &p);
            assert_eq!(a.map(|x| (x.texto, x.score, x.doc)), b.map(|x| (x.texto, x.score, x.doc)));
        }
    }
}

#[test]
fn partes_invalidas_nao_formam_indexador() {
    let idx = build_index();

    // lista de CEP fora de ordem
    let mut p = idx.partes();
    p.municipios[0].1.por_cep.push((1, vec![2, 1]));
    assert!(remontar(p).is_none());

    // logradouro inexistente
    let mut p = idx.partes();
    p.municipios[0].1.docs.push(3);
    assert!(remontar(p).is_none());

    // id interno fora dos documentos
    let mut p = idx.partes();
    p.municipios[0].1.baldes.push((7, vec![3]));
    assert!(remontar(p).is_none());

    // pool com UTF-8 inválido
    let mut p = idx.partes();
    p.logradouros.blob[0] = 0xff;
    assert!(remontar(p).is_none());

    assert!(remontar(idx.partes()).is_some());
}

#[test]
fn partes_do_indexador() {
    let idx = build_index();
    let p = idx.partes();
    assert_eq!(p.municipios.len(), 1);
    assert_eq!(p.ngram_size, 3);
    assert_eq!(&p.logradouros.blob, idx.logr_pool().blob());
    let m = &p.municipios[0].1;
    let mut docs = m.docs.clone();
    docs.sort();
    assert_eq!(docs, vec![0, 1, 2]);
    let mut ceps: Vec<(u32, Vec<u32>)> = m.por_cep.clone();
    ceps.sort();
    assert_eq!(
        ceps,
        vec![(70000000, vec![0]), (70000001, vec![1]), (70000002, vec![2])]
    );
    assert_eq!(p.tokens.len(), idx.tokenizer().token_map.len());
}

#[test]
fn arquivo_comprimido_do_indice() {
    let bytes: Vec<u8> = b"RUA DAS FLORES ".repeat(100);
    let arquivo = arquivo_do_indice(&bytes).unwrap();
    assert_ne!(arquivo, bytes);
    assert!(arquivo.len() < bytes.len());
    assert_eq!(bytes_do_indice(&arquivo), Some(bytes.clone()));
    // bytes que não são um quadro zstd
    assert_eq!(bytes_do_indice(&bytes), None);
}

#[test]
fn logradouro_longo_no_caminho_sequencial() {
    let idx = build_index();
    let p = params();
    let longo = format!("RUA DAS FLORES {}", "A".repeat(70_000));
    assert!(!idx.busca_usa_indice("SP", "SAO PAULO", None, None, &p));
    let r = idx.busca("SP", "SAO PAULO", &longo, None, None, &p);
    assert!(r.is_some());
}

#[test]
fn busca_usa_indice_conforme_o_caminho() {
    let idx = build_index();
    let sempre_indice = SearchParams { min_qnt_index_scan: None, ..params() };
    assert!(idx.busca_usa_indice("SP", "SAO PAULO", None, None, &sempre_indice));
    assert!(!idx.busca_usa_indice("SP", "CAMPINAS", None, None, &sempre_indice));
    assert!(!idx.busca_usa_indice("SP", "SAO PAULO", None, None, &params()));
    let vazio = GeocodeBrIndexer::new(3);
    let longo = "B".repeat(70_000);
    assert!(vazio.busca("SP", "SAO PAULO", &longo, None, None, &sempre_indice).is_none());
}

#[test]
fn tamanho_da_query_conta_os_tokens_conhecidos() {
    let idx = build_index();
    // 12 trigramas, todos indexados
    assert_eq!(idx.tamanho_query("RUA DAS FLORES"), 12);
    // nenhum trigrama conhecido
    assert_eq!(idx.tamanho_query("XYZ"), 0);
}
