use core::cmp::Ordering;
use vstd::prelude::*;
use vstd::std_specs::cmp::PartialEqSpecImpl;
use vstd::std_specs::cmp::PartialOrdSpec;
use vstd::std_specs::cmp::PartialOrdSpecImpl;

use crate::busca_fuzzy::busca_logradouro::{lei_resposta_da_busca, resposta_com_sims, ScoredDoc};

verus! {

/// Duas respostas são iguais quando têm a mesma similaridade.
impl<'a> PartialEq for ScoredDoc<'a> {
    fn eq(&self, other: &Self) -> (r: bool) {
        self.score == other.score
    }
}

impl<'a> PartialEqSpecImpl for ScoredDoc<'a> {
    open spec fn obeys_eq_spec() -> bool {
        true
    }

    open spec fn eq_spec(&self, other: &Self) -> bool {
        self.score == other.score
    }
}

impl<'a> Eq for ScoredDoc<'a> {

}

/// Respostas se ordenam pela similaridade e, nela empatadas, pelo id do
/// logradouro.
impl<'a> PartialOrd for ScoredDoc<'a> {
    fn partial_cmp(&self, other: &Self) -> (r: Option<Ordering>) {
        if self.score < other.score {
            Some(Ordering::Less)
        } else if self.score > other.score {
            Some(Ordering::Greater)
        } else if self.doc < other.doc {
            Some(Ordering::Less)
        } else if self.doc > other.doc {
            Some(Ordering::Greater)
        } else {
            Some(Ordering::Equal)
        }
    }
}

impl<'a> PartialOrdSpecImpl for ScoredDoc<'a> {
    open spec fn obeys_partial_cmp_spec() -> bool {
        true
    }

    open spec fn partial_cmp_spec(&self, other: &Self) -> Option<Ordering> {
        if self.score < other.score {
            Some(Ordering::Less)
        } else if self.score > other.score {
            Some(Ordering::Greater)
        } else if self.doc < other.doc {
            Some(Ordering::Less)
        } else if self.doc > other.doc {
            Some(Ordering::Greater)
        } else {
            Some(Ordering::Equal)
        }
    }
}

/// Na ordem das respostas, a resposta da busca não perde para a resposta
/// de nenhum candidato que alcança a similaridade mínima: ela é a maior.
pub proof fn lei_resposta_e_a_maior<F: Fn(&str, &str) -> u32>(
    r: Option<ScoredDoc>,
    cands: Seq<u32>,
    q: Seq<char>,
    textos: Seq<Seq<char>>,
    f: F,
    min: u32,
    sims: Seq<u32>,
)
    requires
        resposta_com_sims(r, cands, q, textos, f, min, sims),
    ensures
        forall|i: int|
            0 <= i < cands.len() && #[trigger] sims[i] >= min ==> (r matches Some(sd)
                && PartialOrdSpec::partial_cmp_spec(
                &(ScoredDoc { texto: sd.texto, score: sims[i], doc: cands[i] }),
                &sd,
            ) != Some(Ordering::Greater)),
{
    lei_resposta_da_busca(r, cands, q, textos, f, min, sims);
}

} // verus!
