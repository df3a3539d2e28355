//! Ordenações usadas pela biblioteca.
use vstd::prelude::*;

use crate::busca_fuzzy::utils::ordenada;

verus! {

/// Uma sequência de `u16` em ordem não decrescente.
pub open spec fn ordenada_u16(s: Seq<u16>) -> bool {
    forall|i: int, j: int| 0 <= i <= j < s.len() ==> s[i] <= s[j]
}

/// Pares em ordem não decrescente da segunda componente.
pub open spec fn ordenada_pela_segunda(s: Seq<(u32, u16)>) -> bool {
    forall|i: int, j: int| 0 <= i <= j < s.len() ==> s[i].1 <= s[j].1
}

/// `<[u16]>::sort_unstable`: ordena o vetor; o multiconjunto de elementos não muda.
#[verifier::external_body]
pub(crate) fn ordenar_u16(v: &mut Vec<u16>)
    ensures
        final(v)@.to_multiset() == old(v)@.to_multiset(),
        ordenada_u16(final(v)@),
{
    v.sort_unstable()
}

/// `<[u32]>::sort_unstable`: ordena o vetor; o multiconjunto de elementos não muda.
#[verifier::external_body]
pub(crate) fn ordenar_u32(v: &mut Vec<u32>)
    ensures
        final(v)@.to_multiset() == old(v)@.to_multiset(),
        ordenada(final(v)@),
{
    v.sort_unstable()
}

/// `<[(u32, u16)]>::sort_unstable_by_key` pela segunda componente: ordena os
/// pares por ela; o multiconjunto de pares não muda, e a ordem entre pares com
/// a mesma segunda componente não é especificada.
#[verifier::external_body]
pub(crate) fn ordenar_pela_segunda(v: &mut Vec<(u32, u16)>)
    ensures
        final(v)@.to_multiset() == old(v)@.to_multiset(),
        ordenada_pela_segunda(final(v)@),
{
    v.sort_unstable_by_key(|p| p.1)
}

} // verus!
