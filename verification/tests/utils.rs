use enderecobr_rs::busca_fuzzy::utils::{contem_ordenado, dedup_ordenado, intersect_sorted};

#[test]
fn intersect_basico() {
    let a = [1, 2, 3, 4];
    let b = [3, 4, 5, 6];
    assert_eq!(intersect_sorted(&a, &b), vec![3, 4]);
}

#[test]
fn sem_intersecao() {
    let a = [1, 2];
    let b = [3, 4];
    assert!(intersect_sorted(&a, &b).is_empty());
}

#[test]
fn um_vazio() {
    let a: [u32; 0] = [];
    let b = [1, 2, 3];
    assert!(intersect_sorted(&a, &b).is_empty());
    assert!(intersect_sorted(&b, &a).is_empty());
}

#[test]
fn iguais() {
    let a = [1, 2, 3];
    let b = [1, 2, 3];
    assert_eq!(intersect_sorted(&a, &b), vec![1, 2, 3]);
}

#[test]
fn com_duplicados() {
    let a = [1, 2, 2, 3, 5];
    let b = [2, 2, 4, 5];
    assert_eq!(intersect_sorted(&a, &b), vec![2, 2, 5]);
}

#[test]
fn intersecao_nas_pontas() {
    let a = [1, 3, 5, 7];
    let b = [1, 2, 7];
    assert_eq!(intersect_sorted(&a, &b), vec![1, 7]);
}

#[test]
fn intersecao_comutativa_em_valores() {
    let a = [1, 2, 2, 3, 5, 9];
    let b = [2, 2, 2, 5, 7, 9];
    assert_eq!(intersect_sorted(&a, &b), intersect_sorted(&b, &a));
    assert_eq!(intersect_sorted(&a, &b), vec![2, 2, 5, 9]);
}

#[test]
fn intersecao_consigo_mesma() {
    let a = [4, 4, 8, 15, 16, 23, 42];
    assert_eq!(intersect_sorted(&a, &a), a.to_vec());
}

#[test]
fn dedup_tira_repetidos() {
    let v = vec![1, 1, 2, 3, 3, 3, 7];
    assert_eq!(dedup_ordenado(&v), vec![1, 2, 3, 7]);
    assert_eq!(dedup_ordenado(&Vec::new()), Vec::<u32>::new());
}

#[test]
fn busca_binaria() {
    let v = [1, 3, 5, 7, 9];
    assert!(contem_ordenado(&v, 1));
    assert!(contem_ordenado(&v, 9));
    assert!(contem_ordenado(&v, 5));
    assert!(!contem_ordenado(&v, 4));
    assert!(!contem_ordenado(&v, 10));
    assert!(!contem_ordenado(&[], 0));
}

#[test]
fn intersecao_conta_o_menor_numero_de_vezes() {
    let a = [1, 1, 1, 2, 3];
    let b = [1, 1, 3, 3];
    assert_eq!(intersect_sorted(&a, &b), vec![1, 1, 3]);
}

#[test]
fn intersecao_fora_de_ordem_e_subsequencia_das_entradas() {
    let a = [3, 1, 2];
    let b = [1, 2, 3];
    assert_eq!(intersect_sorted(&a, &b), vec![3]);
    assert_eq!(intersect_sorted(&b, &a), vec![3]);
}
