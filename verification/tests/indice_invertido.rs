use enderecobr_rs::busca_fuzzy::indice_invertido::{Contagem, Doc, InvertedIndex, Proporcao};
use enderecobr_rs::busca_fuzzy::tokenizer::Token;

fn t(v: u32) -> Token {
    v as Token
}

fn metade() -> Option<Proporcao> {
    Some(Proporcao { por_milhao: 500_000 })
}

fn build_index(docs: &[(Doc, &[u32])]) -> InvertedIndex {
    let mut idx = InvertedIndex::default();

    for (doc, tokens) in docs {
        let tokens: Vec<Token> = tokens.iter().map(|x| *x as Token).collect();
        idx.add(&tokens, *doc);
    }

    idx.finalizar();
    idx
}

#[test]
fn buscar_query_vazia() {
    let idx = build_index(&[(1, &[1, 2])]);

    let mut it = idx.buscar(&[], None, None);

    assert_eq!(it.next(), None);
}

#[test]
fn buscar_token_inexistente() {
    let idx = build_index(&[(1, &[1, 2]), (2, &[2, 3])]);

    let mut it = idx.buscar(&[t(999)], None, None);

    assert_eq!(it.next(), None);
}

#[test]
fn buscar_match_simples() {
    let idx = build_index(&[(10, &[1, 2, 3]), (20, &[4, 5])]);

    let mut it = idx.buscar(&[t(1)], None, None);

    assert_eq!(it.next(), Some(10));
    assert_eq!(it.next(), None);
}

#[test]
fn buscar_respeita_min_overlap() {
    let idx = build_index(&[(1, &[1, 2]), (2, &[3]), (3, &[4])]);

    // query tem 4 tokens, logo precisa de 2 matches.
    let mut it = idx.buscar(&[t(1), t(2), t(3), t(4)], metade(), None);

    assert_eq!(it.next(), Some(1));
    assert_eq!(it.next(), None);
}

#[test]
fn buscar_respeita_min_overlap_e_max_df() {
    let idx = build_index(&[(1, &[1, 2]), (2, &[1, 3]), (3, &[1, 5])]);

    // query tem 4 tokens, onde 1 deles é muito comum,
    // logo cada documento precisa ter pelo menos um outro token.
    let mut it = idx.buscar(&[t(1), t(2), t(3), t(4)], metade(), metade());

    assert_eq!(it.next(), Some(1));
    assert_eq!(it.next(), Some(2));
    assert_eq!(it.next(), None);
}

#[test]
fn buscar_query_toda_filtrada_por_df() {
    // token 1 aparece em todos
    let idx = build_index(&[(1, &[1]), (2, &[1]), (3, &[1])]);

    // Mesmo filtrando, fallback deve permitir match
    let mut it = idx.buscar(&[t(1)], None, metade());
    let res: Vec<Doc> = it.coletar();

    assert_eq!(res.len(), 3);
}

#[test]
fn buscar_indice_vazio() {
    let idx = InvertedIndex::default();

    let mut it = idx.buscar(&[t(1)], None, None);

    assert_eq!(it.next(), None);
}

#[test]
fn max_freq_sem_limite() {
    let idx = build_index(&[(1, &[1]), (2, &[2])]);
    let max = idx.max_freq_aceitavel(None);
    assert_eq!(max, Contagem::MAX);
}

#[test]
fn max_freq_com_limite() {
    let idx = build_index(&[(1, &[1]), (2, &[2]), (3, &[3]), (4, &[4])]);

    // 4 docs * 0.5 = 2
    let max = idx.max_freq_aceitavel(metade());
    assert_eq!(max, 2);
}

#[test]
fn preparar_query_remove_tokens_frequentes() {
    let idx = build_index(&[(1, &[1, 2]), (2, &[1, 3]), (3, &[1, 4])]);

    let max_freq = 2; // token 1 tem freq 3 → deve sair
    let q = idx.preparar_query(&[t(1), t(2), t(3), t(4)], max_freq);
    let tokens: Vec<Token> = q.into_iter().map(|x| x.0).collect();
    assert_eq!(tokens, vec![t(2), t(3), t(4)]);
}

#[test]
fn preparar_query_fallback_query_curta() {
    let idx = build_index(&[(1, &[1]), (2, &[1]), (3, &[1])]);

    let max_freq = 1; // filtraria tudo

    let q = idx.preparar_query(&[t(1), t(9)], max_freq);

    // fallback deve restaurar tamanho original
    assert_eq!(q.len(), 2);
}

#[test]
fn calcular_min_overlap_sem_parametro() {
    let m = InvertedIndex::calcular_min_overlap(4, 4, None);
    assert_eq!(m, 0);
}

#[test]
fn calcular_min_overlap_desconta_removidos() {
    // query original = 4
    // query final = 2 → removeu 2
    // 0.5 * 4 = 2 → 2 - 2 = 0 → clamp → 1
    let m = InvertedIndex::calcular_min_overlap(4, 2, metade());

    assert_eq!(m, 1);
}

#[test]
fn min_overlap_arredonda_para_cima() {
    // 0.3 * 5 = 1.5 → 2
    let m = InvertedIndex::calcular_min_overlap(5, 5, Some(Proporcao { por_milhao: 300_000 }));
    assert_eq!(m, 2);
    // 1.0 * 3 - 1 = 2
    let m = InvertedIndex::calcular_min_overlap(3, 2, Some(Proporcao { por_milhao: 1_000_000 }));
    assert_eq!(m, 2);
}

#[test]
fn max_freq_arredonda_para_cima() {
    let idx = build_index(&[(1, &[1]), (2, &[2]), (3, &[3])]);
    // 3 docs * 0.1 = 0.3 → 1
    assert_eq!(idx.max_freq_aceitavel(Some(Proporcao { por_milhao: 100_000 })), 1);
}

#[test]
fn preparar_query_ordena_por_frequencia_estavel() {
    let idx = build_index(&[(1, &[5, 6, 7]), (2, &[5, 6]), (3, &[5, 8])]);
    // freqs: 5→3, 6→2, 7→1, 8→1
    let q = idx.preparar_query(&[t(5), t(8), t(6), t(7)], Contagem::MAX);
    assert_eq!(q, vec![(t(8), 1), (t(7), 1), (t(6), 2), (t(5), 3)]);
}

#[test]
fn finalizar_ordena_documentos_por_id_interno() {
    let idx = build_index(&[(30, &[1]), (10, &[2]), (20, &[1, 2]), (10, &[3])]);
    assert_eq!(idx.docs, vec![30, 10, 20]);
    assert_eq!(idx.total_docs(), 3);
    assert_eq!(idx.frequencia_token(&t(1)), 2);
    assert_eq!(idx.frequencia_token(&t(2)), 2);
    assert_eq!(idx.frequencia_token(&t(9)), 0);
    assert!(idx.docs_to_id.is_empty());
}

#[test]
fn buscar_nao_repete_documentos() {
    // o documento 7 tem o token 1 duas vezes
    let idx = build_index(&[(7, &[1, 1, 2]), (8, &[2])]);
    let mut it = idx.buscar(&[t(1), t(2)], None, None);
    let res = it.coletar();
    assert_eq!(res, vec![7, 8]);
}

#[test]
fn buscar_encontra_quem_alcanca_o_minimo() {
    // query de 4 tokens com metade de sobreposição: precisa de 2 tokens
    let idx = build_index(&[(1, &[1, 2]), (2, &[2, 3]), (3, &[4]), (4, &[1, 3, 4])]);
    let mut it = idx.buscar(&[t(1), t(2), t(3), t(4)], metade(), None);
    let mut res = it.coletar();
    res.sort();
    assert_eq!(res, vec![1, 2, 4]);
}

#[test]
fn buscar_query_de_65536_tokens_nao_acha_nada() {
    let idx = build_index(&[(1, &[1]), (2, &[1, 2])]);
    let query = vec![t(1); 65536];
    let mut it = idx.buscar(&query, None, None);
    assert_eq!(it.next(), None);
    let query = vec![t(1); 65535];
    let mut it = idx.buscar(&query, None, None);
    let mut res = it.coletar();
    res.sort();
    assert_eq!(res, vec![1, 2]);
}

#[test]
fn buscar_devolve_exatamente_quem_tem_um_token() {
    let idx = build_index(&[(1, &[1, 2]), (2, &[2]), (3, &[3])]);
    let mut it = idx.buscar(&[t(1), t(2)], None, None);
    let mut res = it.coletar();
    res.sort();
    assert_eq!(res, vec![1, 2]);
}

#[test]
fn iterador_devolve_na_ordem_de_ativacao() {
    let idx = build_index(&[(1, &[1, 2]), (2, &[2]), (3, &[1])]);
    // o token 1 ativa os documentos 1 e 3; o token 2, o documento 2
    let mut it = idx.buscar(&[t(1), t(2)], None, None);
    assert_eq!(it.next(), Some(1));
    assert_eq!(it.next(), Some(3));
    assert_eq!(it.next(), Some(2));
    assert_eq!(it.next(), None);
    assert_eq!(it.next(), None);
}
