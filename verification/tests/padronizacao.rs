use enderecobr_rs::busca_fuzzy::padronizacao::{
    cep_para_numero, padronizar_bairros, padronizar_estados_para_sigla, padronizar_logradouros,
    padronizar_municipios, padronizar_texto,
};

#[test]
fn padroniza_maiusculas_sem_acento() {
    assert_eq!(padronizar_texto("  Rua   São João, 12 "), "RUA SAO JOAO 12");
    assert_eq!(padronizar_logradouros("avenida paulista"), "AVENIDA PAULISTA");
    assert_eq!(padronizar_municipios("São Paulo"), "SAO PAULO");
    assert_eq!(padronizar_bairros("Sul"), "SUL");
    assert_eq!(padronizar_texto(""), "");
    assert_eq!(padronizar_texto("Ação-Ñandu"), "ACAO NANDU");
}

#[test]
fn estado_por_extenso_vira_sigla() {
    assert_eq!(padronizar_estados_para_sigla("São Paulo"), "SP");
    assert_eq!(padronizar_estados_para_sigla("rio grande do sul"), "RS");
    assert_eq!(padronizar_estados_para_sigla("sp"), "SP");
    assert_eq!(padronizar_estados_para_sigla("Distrito Federal"), "DF");
    assert_eq!(padronizar_estados_para_sigla("Atlantida"), "ATLANTIDA");
}

#[test]
fn cep_como_numero() {
    assert_eq!(cep_para_numero("70000000"), Some(70000000));
    assert_eq!(cep_para_numero("70.000-001"), Some(70000001));
    assert_eq!(cep_para_numero("01310-100"), Some(1310100));
    assert_eq!(cep_para_numero(""), None);
    assert_eq!(cep_para_numero("123456789"), None);
    assert_eq!(cep_para_numero("7000A000"), None);
    assert_eq!(cep_para_numero("--"), None);
}

#[test]
fn padronizar_duas_vezes_da_o_mesmo() {
    for s in ["  Rua   São João, 12 ", "Ação-Ñandu", "", "   ", "já PADRONIZADO 1"] {
        let uma = padronizar_texto(s);
        assert_eq!(padronizar_texto(&uma), uma);
        assert!(uma
            .chars()
            .all(|c| c.is_ascii_uppercase() || c.is_ascii_digit() || c == ' '));
    }
}
