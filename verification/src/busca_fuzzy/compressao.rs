//! Compressão zstd do arquivo de um índice salvo.
use vstd::prelude::*;

verus! {

/// O nível de compressão zstd do arquivo de índice.
pub const NIVEL_ZSTD: i32 = 6;

/// O conteúdo descomprimido de um quadro zstd, ou `None` se os bytes não
/// formam quadros zstd válidos.
pub uninterp spec fn zstd_descomprimido(bytes: Seq<u8>) -> Option<Seq<u8>>;

/// Os bytes comprimidos em quadro zstd no nível dado, ou `None` se a
/// compressão falha.
pub uninterp spec fn zstd_comprimido(bytes: Seq<u8>, nivel: i32) -> Option<Seq<u8>>;

/// `zstd::decode_all` sobre os bytes: o seu resultado, como função dos
/// bytes; o erro vira `None`. Nada mais é afirmado do conteúdo.
#[verifier::external_body]
fn descomprimir_zstd(bytes: &[u8]) -> (r: Option<Vec<u8>>)
    ensures
        match r {
            Some(v) => zstd_descomprimido(bytes@) == Some(v@),
            None => zstd_descomprimido(bytes@) is None,
        },
{
    zstd::decode_all(bytes).ok()
}

/// `zstd::encode_all` sobre os bytes no nível dado: o seu resultado, como
/// função dos bytes e do nível; o erro vira `None`.
#[verifier::external_body]
fn comprimir_zstd(bytes: &[u8], nivel: i32) -> (r: Option<Vec<u8>>)
    ensures
        match r {
            Some(v) => zstd_comprimido(bytes@, nivel) == Some(v@),
            None => zstd_comprimido(bytes@, nivel) is None,
        },
{
    zstd::encode_all(bytes, nivel).ok()
}

/// Os bytes de um índice salvo, tirados do conteúdo comprimido do arquivo.
pub fn bytes_do_indice(arquivo: &[u8]) -> (r: Option<Vec<u8>>)
    ensures
        match r {
            Some(v) => zstd_descomprimido(arquivo@) == Some(v@),
            None => zstd_descomprimido(arquivo@) is None,
        },
{
    descomprimir_zstd(arquivo)
}

/// O conteúdo do arquivo de um índice: os bytes do índice comprimidos com
/// zstd no nível `NIVEL_ZSTD`.
pub fn arquivo_do_indice(bytes: &[u8]) -> (r: Option<Vec<u8>>)
    ensures
        match r {
            Some(v) => zstd_comprimido(bytes@, NIVEL_ZSTD) == Some(v@),
            None => zstd_comprimido(bytes@, NIVEL_ZSTD) is None,
        },
{
    comprimir_zstd(bytes, NIVEL_ZSTD)
}

} // verus!
