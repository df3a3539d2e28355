use enderecobr_rs::busca_fuzzy::tokenizer::{NgramIter, NgramTokenizer};

#[test]
fn ngramas_de_tres_bytes() {
    let mut it = NgramIter::new("RUA X", 3);
    let ngs = it.coletar();
    assert_eq!(ngs, vec!["RUA", "UA ", "A X"]);
    assert_eq!(it.next(), None);
}

#[test]
fn texto_menor_que_o_ngrama() {
    let mut it = NgramIter::new("AB", 3);
    assert_eq!(it.next(), None);
}

#[test]
fn intern_da_tokens_sequenciais() {
    let mut tk = NgramTokenizer::new(3);
    assert_eq!(tk.intern("ABC"), 0);
    assert_eq!(tk.intern("BCD"), 1);
    assert_eq!(tk.intern("ABC"), 0);
    assert_eq!(tk.token_map.len(), 2);
}

#[test]
fn busca_apos_indexacao_da_os_mesmos_tokens() {
    let mut tk = NgramTokenizer::new(3);
    let idx = tk.tokenize_index("RUA DAS RUAS");
    let busca = tk.tokenize_search("RUA DAS RUAS");
    assert_eq!(idx.len(), "RUA DAS RUAS".len() - 2);
    assert_eq!(idx, busca);
    // "RUA" aparece duas vezes e recebe o mesmo token
    assert_eq!(idx[0], idx[8]);
}

#[test]
fn busca_ignora_ngramas_desconhecidos() {
    let mut tk = NgramTokenizer::new(3);
    tk.tokenize_index("ABCD");
    let r = tk.tokenize_search("XBCDY");
    // só "BCD" é conhecido
    assert_eq!(r, vec![1]);
    tk.shrink_to_fit();
    assert_eq!(tk.tokenize_search("ABC"), vec![0]);
}

#[test]
fn tokenizador_montado_das_entradas() {
    let entradas = vec![("ABC".to_string(), 4), ("BCD".to_string(), 9), ("ABC".to_string(), 5)];
    let tk = NgramTokenizer::de_partes(3, &entradas);
    assert_eq!(tk.ngram_size, 3);
    // a última entrada repetida vale
    assert_eq!(tk.tokenize_search("ABCD"), vec![5, 9]);
}
