use enderecobr_rs::busca_fuzzy::string_pool::StringPool;

#[test]
fn test_string_pool_empty() {
    let pool = StringPool::default();
    assert_eq!(pool.blob().len(), 0);
    assert_eq!(pool.offsets().len(), 0);
    assert_eq!(pool.inverso.len(), 0);
}

#[test]
fn test_string_pool_push_get_roundtrip() {
    let mut pool = StringPool::default();
    let id1 = pool.push("hello");
    let id2 = pool.push("world");
    let id3 = pool.push("hello"); // duplicado

    assert_eq!(id1, 0);
    assert_eq!(id2, 1);
    assert_eq!(id3, 0); // mesmo ID para string duplicada
    assert_eq!(pool.get(id1), "hello");
    assert_eq!(pool.get(id2), "world");
}

#[test]
fn test_string_pool_get_str_existing() {
    let mut pool = StringPool::default();
    pool.push("test");
    pool.push("rust");

    assert_eq!(pool.get_str("test"), Some(0));
    assert_eq!(pool.get_str("rust"), Some(1));
    assert_eq!(pool.get_str("unknown"), None);
}

#[test]
fn test_string_pool_no_duplicates_in_blob() {
    let mut pool = StringPool::default();
    let id1 = pool.push("abc");
    let id2 = pool.push("abc");

    assert_eq!(id1, id2);
    assert_eq!(pool.offsets().len(), 1);
    assert_eq!(pool.blob().len(), 3);
}

#[test]
fn test_string_pool_push_long_string() {
    let mut pool = StringPool::default();
    let long_str = "a".repeat(1000);
    let id = pool.push(&long_str);

    assert_eq!(pool.get(id), long_str.as_str());
    assert_eq!(pool.blob().len(), 1000);
    assert_eq!(pool.offsets().len(), 1);
}

#[test]
fn test_string_pool_popular_inverso() {
    let mut pool = StringPool::default();
    pool.push("first");
    pool.push("second");
    // inverso está vazio
    assert_eq!(pool.inverso.len(), 2);

    pool.inverso.clear();
    assert_eq!(pool.inverso.len(), 0);

    pool.popular_inverso();
    assert_eq!(pool.inverso.len(), 2);
    assert_eq!(pool.get_str("first"), Some(0));
    assert_eq!(pool.get_str("second"), Some(1));
}

#[test]
fn pool_com_acentos() {
    let mut pool = StringPool::default();
    let a = pool.push("São João");
    let b = pool.push("Açaí");
    assert_eq!(pool.get(a), "São João");
    assert_eq!(pool.get(b), "Açaí");
    assert_eq!(pool.blob().len(), "São João".len() + "Açaí".len());
    assert_eq!(pool.offsets()[1], ("São João".len() as u32, "Açaí".len() as u32));
}

#[test]
fn push_duas_vezes_nao_cresce() {
    let mut pool = StringPool::default();
    let a = pool.push("x");
    let tam = pool.blob().len();
    let b = pool.push("x");
    assert_eq!(a, b);
    assert_eq!(pool.blob().len(), tam);
    assert_eq!(pool.get_str("x"), Some(a));
}

#[test]
fn limpar_inverso_mantem_textos() {
    let mut pool = StringPool::default();
    pool.push("um");
    pool.push("dois");
    pool.limpar_inverso();
    assert_eq!(pool.get_str("um"), None);
    assert_eq!(pool.get(1), "dois");
    pool.shrink_to_fit();
    assert_eq!(pool.get(0), "um");
}

#[test]
fn pool_montado_das_partes_de_outro() {
    let mut pool = StringPool::default();
    pool.push("alfa");
    pool.push("beta");
    pool.push("Ω");
    let mut copia = StringPool::de_partes(pool.blob().clone(), pool.offsets().clone()).unwrap();
    assert_eq!(copia.get(0), "alfa");
    assert_eq!(copia.get(2), "Ω");
    // o índice inverso começa vazio
    assert_eq!(copia.get_str("beta"), None);
    copia.popular_inverso();
    assert_eq!(copia.get_str("beta"), Some(1));
    assert_eq!(copia.blob(), pool.blob());
}

#[test]
fn partes_invalidas_nao_formam_pool() {
    // intervalo fora do blob
    assert!(StringPool::de_partes(b"abc".to_vec(), vec![(1, 3)]).is_none());
    // UTF-8 inválido
    assert!(StringPool::de_partes(vec![0xff], vec![(0, 1)]).is_none());
    // corte no meio de um caractere
    assert!(StringPool::de_partes("ã".as_bytes().to_vec(), vec![(0, 1)]).is_none());
    // vazio é válido
    assert!(StringPool::de_partes(Vec::new(), Vec::new()).is_some());
    // intervalos podem se repetir e se sobrepor
    let p = StringPool::de_partes(b"abc".to_vec(), vec![(0, 2), (1, 2), (0, 2)]).unwrap();
    assert_eq!(p.get(1), "bc");
    assert_eq!(p.get(2), "ab");
}

#[test]
fn test_string_pool_shrink_to_fit() {
    let mut pool = StringPool::default();
    pool.push("small");
    pool.inverso.reserve(1000);
    pool.inverso.shrink_to_fit(); // força redução após alocação
    pool.shrink_to_fit();

    let capacity_after = pool.blob().capacity();
    pool.shrink_to_fit();
    assert_eq!(pool.blob().capacity(), capacity_after);
    assert_eq!(pool.get(0), "small");
}
