//! Acesso aos `FxHashMap` de `rustc_hash` por funções confiáveis.
//!
//! Cada tipo de mapa usado pela biblioteca tem um nome para o seu conteúdo
//! e um pequeno conjunto de funções confiáveis, cada uma chamando um único
//! método do mapa.
use rustc_hash::FxHashMap;
use vstd::prelude::*;

verus! {

/// O construtor de hashers de `rustc_hash`, usado como parâmetro `S` do `HashMap` de std.
#[verifier::external_type_specification]
#[verifier::external_body]
pub struct ExFxBuildHasher(rustc_hash::FxBuildHasher);

/// Conteúdo de um `FxHashMap<String, u32>`: cada chave vista como sequência de caracteres.
pub uninterp spec fn conteudo_texto_u32(m: FxHashMap<String, u32>) -> Map<Seq<char>, u32>;

/// `FxHashMap::default`: devolve um mapa vazio.
#[verifier::external_body]
pub(crate) fn texto_u32_novo() -> (m: FxHashMap<String, u32>)
    ensures
        conteudo_texto_u32(m) == (Map::<Seq<char>, u32>::empty()),
{
    FxHashMap::default()
}

/// `HashMap::get` com chave `&str`: devolve o valor associado à chave, se houver.
#[verifier::external_body]
pub(crate) fn texto_u32_obter(m: &FxHashMap<String, u32>, s: &str) -> (r: Option<u32>)
    ensures
        r == (if conteudo_texto_u32(*m).contains_key(s@) {
            Some(conteudo_texto_u32(*m)[s@])
        } else {
            None::<u32>
        }),
{
    m.get(s).copied()
}

/// `HashMap::insert`: associa `v` à chave `s`, substituindo um valor anterior.
#[verifier::external_body]
pub(crate) fn texto_u32_inserir(m: &mut FxHashMap<String, u32>, s: String, v: u32)
    ensures
        conteudo_texto_u32(*final(m)) == conteudo_texto_u32(*old(m)).insert(s@, v),
{
    m.insert(s, v);
}

/// `HashMap::clear`: remove todas as chaves.
#[verifier::external_body]
pub(crate) fn texto_u32_limpar(m: &mut FxHashMap<String, u32>)
    ensures
        conteudo_texto_u32(*final(m)) == (Map::<Seq<char>, u32>::empty()),
{
    m.clear()
}

/// `HashMap::shrink_to_fit`: só muda a capacidade; o conteúdo fica igual.
#[verifier::external_body]
pub(crate) fn texto_u32_encolher(m: &mut FxHashMap<String, u32>)
    ensures
        conteudo_texto_u32(*final(m)) == conteudo_texto_u32(*old(m)),
{
    m.shrink_to_fit()
}

/// Conteúdo de um `FxHashMap<String, u16>`: cada chave vista como sequência de caracteres.
pub uninterp spec fn conteudo_texto_u16(m: FxHashMap<String, u16>) -> Map<Seq<char>, u16>;

/// `FxHashMap::default`: devolve um mapa vazio.
#[verifier::external_body]
pub(crate) fn texto_u16_novo() -> (m: FxHashMap<String, u16>)
    ensures
        conteudo_texto_u16(m) == (Map::<Seq<char>, u16>::empty()),
{
    FxHashMap::default()
}

/// `HashMap::get` com chave `&str`: devolve o valor associado à chave, se houver.
#[verifier::external_body]
pub(crate) fn texto_u16_obter(m: &FxHashMap<String, u16>, s: &str) -> (r: Option<u16>)
    ensures
        r == (if conteudo_texto_u16(*m).contains_key(s@) {
            Some(conteudo_texto_u16(*m)[s@])
        } else {
            None::<u16>
        }),
{
    m.get(s).copied()
}

/// `HashMap::insert`: associa `v` à chave `s`, substituindo um valor anterior.
#[verifier::external_body]
pub(crate) fn texto_u16_inserir(m: &mut FxHashMap<String, u16>, s: String, v: u16)
    ensures
        conteudo_texto_u16(*final(m)) == conteudo_texto_u16(*old(m)).insert(s@, v),
{
    m.insert(s, v);
}

/// `HashMap::len`: o número de chaves.
#[verifier::external_body]
pub(crate) fn texto_u16_tamanho(m: &FxHashMap<String, u16>) -> (r: usize)
    ensures
        r == conteudo_texto_u16(*m).dom().len(),
{
    m.len()
}

/// `HashMap::shrink_to_fit`: só muda a capacidade; o conteúdo fica igual.
#[verifier::external_body]
pub(crate) fn texto_u16_encolher(m: &mut FxHashMap<String, u16>)
    ensures
        conteudo_texto_u16(*final(m)) == conteudo_texto_u16(*old(m)),
{
    m.shrink_to_fit()
}

/// `HashMap::iter` com as chaves copiadas: as entradas (n-grama, token), cada
/// chave uma vez, em ordem não especificada.
#[verifier::external_body]
pub(crate) fn texto_u16_entradas(m: &FxHashMap<String, u16>) -> (r: Vec<(String, u16)>)
    ensures
        forall|i: int|
            0 <= i < r@.len() ==> {
                &&& conteudo_texto_u16(*m).contains_key(#[trigger] r@[i].0@)
                &&& conteudo_texto_u16(*m)[r@[i].0@] == r@[i].1
            },
        forall|i: int, j: int| 0 <= i < j < r@.len() ==> #[trigger] r@[i].0@ != #[trigger] r@[j].0@,
        forall|k: Seq<char>|
            conteudo_texto_u16(*m).contains_key(k) ==> exists|i: int| 0 <= i < r@.len() && #[trigger] r@[i].0@ == k,
{
    m.iter().map(|(k, v)| (k.clone(), *v)).collect()
}

/// Conteúdo de um `FxHashMap<u16, Vec<u16>>`: cada lista vista como sequência.
pub uninterp spec fn conteudo_u16_lista(m: FxHashMap<u16, Vec<u16>>) -> Map<u16, Seq<u16>>;

/// `FxHashMap::default`: devolve um mapa vazio.
#[verifier::external_body]
pub(crate) fn u16_lista_novo() -> (m: FxHashMap<u16, Vec<u16>>)
    ensures
        conteudo_u16_lista(m) == (Map::<u16, Seq<u16>>::empty()),
{
    FxHashMap::default()
}

/// `HashMap::get`: a lista associada à chave, se houver.
#[verifier::external_body]
pub(crate) fn u16_lista_obter(m: &FxHashMap<u16, Vec<u16>>, k: u16) -> (r: Option<&Vec<u16>>)
    ensures
        match r {
            Some(v) => conteudo_u16_lista(*m).contains_key(k) && v@ == conteudo_u16_lista(*m)[k],
            None => !conteudo_u16_lista(*m).contains_key(k),
        },
{
    m.get(&k)
}

/// `HashMap::remove`: retira a chave e devolve a lista que estava associada a ela.
#[verifier::external_body]
pub(crate) fn u16_lista_remover(m: &mut FxHashMap<u16, Vec<u16>>, k: u16) -> (r: Option<Vec<u16>>)
    ensures
        conteudo_u16_lista(*final(m)) == conteudo_u16_lista(*old(m)).remove(k),
        match r {
            Some(v) => conteudo_u16_lista(*old(m)).contains_key(k) && v@ == conteudo_u16_lista(
                *old(m),
            )[k],
            None => !conteudo_u16_lista(*old(m)).contains_key(k),
        },
{
    m.remove(&k)
}

/// `HashMap::insert`: associa a lista `v` à chave `k`.
#[verifier::external_body]
pub(crate) fn u16_lista_inserir(m: &mut FxHashMap<u16, Vec<u16>>, k: u16, v: Vec<u16>)
    ensures
        conteudo_u16_lista(*final(m)) == conteudo_u16_lista(*old(m)).insert(k, v@),
{
    m.insert(k, v);
}

/// `HashMap::keys`: as chaves do mapa, cada uma uma vez, em ordem não especificada.
#[verifier::external_body]
pub(crate) fn u16_lista_chaves(m: &FxHashMap<u16, Vec<u16>>) -> (r: Vec<u16>)
    ensures
        r@.no_duplicates(),
        forall|k: u16| r@.contains(k) <==> conteudo_u16_lista(*m).contains_key(k),
{
    m.keys().copied().collect()
}

/// `HashMap::shrink_to_fit`: só muda a capacidade; o conteúdo fica igual.
#[verifier::external_body]
pub(crate) fn u16_lista_encolher(m: &mut FxHashMap<u16, Vec<u16>>)
    ensures
        conteudo_u16_lista(*final(m)) == conteudo_u16_lista(*old(m)),
{
    m.shrink_to_fit()
}

/// Conteúdo de um `FxHashMap<u32, u16>`.
pub uninterp spec fn conteudo_u32_u16(m: FxHashMap<u32, u16>) -> Map<u32, u16>;

/// `FxHashMap::default`: devolve um mapa vazio.
#[verifier::external_body]
pub(crate) fn u32_u16_novo() -> (m: FxHashMap<u32, u16>)
    ensures
        conteudo_u32_u16(m) == (Map::<u32, u16>::empty()),
{
    FxHashMap::default()
}

/// `HashMap::get`: o valor associado à chave, se houver.
#[verifier::external_body]
pub(crate) fn u32_u16_obter(m: &FxHashMap<u32, u16>, k: u32) -> (r: Option<u16>)
    ensures
        r == (if conteudo_u32_u16(*m).contains_key(k) {
            Some(conteudo_u32_u16(*m)[k])
        } else {
            None::<u16>
        }),
{
    m.get(&k).copied()
}

/// `HashMap::insert`: associa `v` à chave `k`.
#[verifier::external_body]
pub(crate) fn u32_u16_inserir(m: &mut FxHashMap<u32, u16>, k: u32, v: u16)
    ensures
        conteudo_u32_u16(*final(m)) == conteudo_u32_u16(*old(m)).insert(k, v),
{
    m.insert(k, v);
}

/// `HashMap::len`: o número de chaves.
#[verifier::external_body]
pub(crate) fn u32_u16_tamanho(m: &FxHashMap<u32, u16>) -> (r: usize)
    ensures
        r == conteudo_u32_u16(*m).dom().len(),
{
    m.len()
}

/// `HashMap::iter`: os pares (chave, valor), cada chave uma vez, em ordem não especificada.
#[verifier::external_body]
pub(crate) fn u32_u16_entradas(m: &FxHashMap<u32, u16>) -> (r: Vec<(u32, u16)>)
    ensures
        r@.len() == conteudo_u32_u16(*m).dom().len(),
        forall|i: int| 0 <= i < r@.len() ==> {
            &&& conteudo_u32_u16(*m).contains_key(#[trigger] r@[i].0)
            &&& conteudo_u32_u16(*m)[r@[i].0] == r@[i].1
        },
        forall|i: int, j: int| 0 <= i < j < r@.len() ==> #[trigger] r@[i].0 != #[trigger] r@[j].0,
        forall|k: u32| conteudo_u32_u16(*m).contains_key(k) ==> exists|i: int| 0 <= i < r@.len() && #[trigger] r@[i].0 == k,
{
    m.iter().map(|(k, v)| (*k, *v)).collect()
}

/// Conteúdo de um `FxHashMap<u32, Vec<u32>>`: cada lista vista como sequência.
pub uninterp spec fn conteudo_u32_lista(m: FxHashMap<u32, Vec<u32>>) -> Map<u32, Seq<u32>>;

/// `FxHashMap::default`: devolve um mapa vazio.
#[verifier::external_body]
pub(crate) fn u32_lista_novo() -> (m: FxHashMap<u32, Vec<u32>>)
    ensures
        conteudo_u32_lista(m) == (Map::<u32, Seq<u32>>::empty()),
{
    FxHashMap::default()
}

/// `HashMap::get`: a lista associada à chave, se houver.
#[verifier::external_body]
pub(crate) fn u32_lista_obter(m: &FxHashMap<u32, Vec<u32>>, k: u32) -> (r: Option<&Vec<u32>>)
    ensures
        match r {
            Some(v) => conteudo_u32_lista(*m).contains_key(k) && v@ == conteudo_u32_lista(*m)[k],
            None => !conteudo_u32_lista(*m).contains_key(k),
        },
{
    m.get(&k)
}

/// `HashMap::remove`: retira a chave e devolve a lista que estava associada a ela.
#[verifier::external_body]
pub(crate) fn u32_lista_remover(m: &mut FxHashMap<u32, Vec<u32>>, k: u32) -> (r: Option<Vec<u32>>)
    ensures
        conteudo_u32_lista(*final(m)) == conteudo_u32_lista(*old(m)).remove(k),
        match r {
            Some(v) => conteudo_u32_lista(*old(m)).contains_key(k) && v@ == conteudo_u32_lista(
                *old(m),
            )[k],
            None => !conteudo_u32_lista(*old(m)).contains_key(k),
        },
{
    m.remove(&k)
}

/// `HashMap::insert`: associa a lista `v` à chave `k`.
#[verifier::external_body]
pub(crate) fn u32_lista_inserir(m: &mut FxHashMap<u32, Vec<u32>>, k: u32, v: Vec<u32>)
    ensures
        conteudo_u32_lista(*final(m)) == conteudo_u32_lista(*old(m)).insert(k, v@),
{
    m.insert(k, v);
}

/// `HashMap::keys`: as chaves do mapa, cada uma uma vez, em ordem não especificada.
#[verifier::external_body]
pub(crate) fn u32_lista_chaves(m: &FxHashMap<u32, Vec<u32>>) -> (r: Vec<u32>)
    ensures
        r@.no_duplicates(),
        forall|k: u32| r@.contains(k) <==> conteudo_u32_lista(*m).contains_key(k),
{
    m.keys().copied().collect()
}

/// Conteúdo de um `FxHashMap<(u32, u32), u32>`.
pub uninterp spec fn conteudo_par_u32(m: FxHashMap<(u32, u32), u32>) -> Map<(u32, u32), u32>;

/// `FxHashMap::default`: devolve um mapa vazio.
#[verifier::external_body]
pub(crate) fn par_u32_novo() -> (m: FxHashMap<(u32, u32), u32>)
    ensures
        conteudo_par_u32(m) == (Map::<(u32, u32), u32>::empty()),
{
    FxHashMap::default()
}

/// `HashMap::get`: o valor associado à chave, se houver.
#[verifier::external_body]
pub(crate) fn par_u32_obter(m: &FxHashMap<(u32, u32), u32>, k: (u32, u32)) -> (r: Option<u32>)
    ensures
        r == (if conteudo_par_u32(*m).contains_key(k) {
            Some(conteudo_par_u32(*m)[k])
        } else {
            None::<u32>
        }),
{
    m.get(&k).copied()
}

/// `HashMap::insert`: associa `v` à chave `k`.
#[verifier::external_body]
pub(crate) fn par_u32_inserir(m: &mut FxHashMap<(u32, u32), u32>, k: (u32, u32), v: u32)
    ensures
        conteudo_par_u32(*final(m)) == conteudo_par_u32(*old(m)).insert(k, v),
{
    m.insert(k, v);
}

/// `HashMap::shrink_to_fit`: só muda a capacidade; o conteúdo fica igual.
#[verifier::external_body]
pub(crate) fn par_u32_encolher(m: &mut FxHashMap<(u32, u32), u32>)
    ensures
        conteudo_par_u32(*final(m)) == conteudo_par_u32(*old(m)),
{
    m.shrink_to_fit()
}

/// `HashMap::keys`: as chaves do mapa, cada uma uma vez, em ordem não especificada.
#[verifier::external_body]
pub(crate) fn par_u32_chaves(m: &FxHashMap<(u32, u32), u32>) -> (r: Vec<(u32, u32)>)
    ensures
        r@.no_duplicates(),
        forall|k: (u32, u32)| r@.contains(k) <==> conteudo_par_u32(*m).contains_key(k),
{
    m.keys().copied().collect()
}

} // verus!
