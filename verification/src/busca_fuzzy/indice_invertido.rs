//! Índice invertido de tokens para documentos, com busca por sobreposição
//! mínima de tokens.
use rustc_hash::FxHashMap;
use vstd::prelude::*;

use crate::busca_fuzzy::mapas::{
    conteudo_u16_lista, conteudo_u32_u16, u16_lista_chaves, u16_lista_encolher, u16_lista_inserir,
    u16_lista_novo, u16_lista_obter, u16_lista_remover, u32_u16_entradas, u32_u16_inserir,
    u32_u16_novo, u32_u16_obter, u32_u16_tamanho,
};
use crate::busca_fuzzy::ordenacao::{
    ordenada_pela_segunda, ordenada_u16, ordenar_pela_segunda, ordenar_u16,
};
use crate::busca_fuzzy::string_pool::encolher_vec;
use crate::busca_fuzzy::tokenizer::Token;
use crate::busca_fuzzy::utils::{lema_id_sequencial, mapa_injetivo, valores_abaixo_do_tamanho};

verus! {

broadcast use vstd::seq_lib::group_to_multiset_ensures;

pub type Doc = u32;

pub type Contagem = u16;

pub type InternalDocId = u16;

/// A lista de um token no mapa de listas, ou a lista vazia.
pub open spec fn lista(b: Map<u16, Seq<u16>>, t: u16) -> Seq<u16> {
    if b.contains_key(t) {
        b[t]
    } else {
        Seq::empty()
    }
}

/// Acrescenta `d` à lista de cada token de `tokens`, em ordem.
pub open spec fn acrescentar(b: Map<u16, Seq<u16>>, tokens: Seq<u16>, d: u16) -> Map<u16, Seq<u16>>
    decreases tokens.len(),
{
    if tokens.len() == 0 {
        b
    } else {
        let b1 = acrescentar(b, tokens.drop_last(), d);
        b1.insert(tokens.last(), lista(b1, tokens.last()).push(d))
    }
}

/// O id interno de `doc`: o já atribuído, ou o número de documentos
/// conhecidos, reduzido a 16 bits.
pub open spec fn id_modelo(ids: Map<u32, u16>, doc: u32) -> (Map<u32, u16>, u16) {
    if ids.contains_key(doc) {
        (ids, ids[doc])
    } else {
        (ids.insert(doc, ids.dom().len() as u16), ids.dom().len() as u16)
    }
}

/// O id interno de um documento é o seu id no novo mapa; um documento novo
/// recebe um id que nenhum outro documento tem. Com ids abaixo do número de
/// documentos (como `add` os dá) e menos de 65536 documentos, documentos
/// distintos continuam com ids distintos.
pub proof fn lei_id_novo(ids: Map<u32, u16>, doc: u32)
    requires
        ids.dom().finite(),
        ids.dom().len() < 0x10000,
        valores_abaixo_do_tamanho(ids),
    ensures
        ({
            let (m2, id) = id_modelo(ids, doc);
            &&& m2.contains_key(doc) && m2[doc] == id
            &&& forall|d: u32| #[trigger] ids.contains_key(d) ==> m2.contains_key(d) && m2[d] == ids[d]
            &&& !ids.contains_key(doc) ==> forall|d: u32| #[trigger] ids.contains_key(d) ==> ids[d] != id
            &&& m2.dom().finite()
            &&& valores_abaixo_do_tamanho(m2)
            &&& mapa_injetivo(ids) ==> mapa_injetivo(m2)
        }),
{
    if !ids.contains_key(doc) {
        lema_id_sequencial(ids, doc);
    }
}

/// Os filtros da query: cada token que fica aparece na query, tem a sua
/// frequência, e esta é de pelo menos 1 e menor que `max_freq`; e todo
/// token da query com frequência nessa faixa fica. Se nenhum token da
/// query tem frequência na faixa, sobra a query vazia.
pub proof fn lei_filtrar_query(b: Map<u16, Seq<u16>>, q: Seq<u16>, max_freq: u16)
    ensures
        forall|i: int|
            0 <= i < filtrar_modelo(b, q, max_freq).len() ==> {
                let (t, f) = #[trigger] filtrar_modelo(b, q, max_freq)[i];
                &&& q.contains(t)
                &&& f == freq_modelo(b, t)
                &&& 1 <= f < max_freq
            },
        forall|i: int|
            0 <= i < q.len() && 1 <= freq_modelo(b, #[trigger] q[i]) < max_freq ==> exists|j: int|
                0 <= j < filtrar_modelo(b, q, max_freq).len() && filtrar_modelo(b, q, max_freq)[j].0
                    == q[i],
        (forall|i: int| 0 <= i < q.len() ==> !(1 <= #[trigger] freq_modelo(b, q[i]) < max_freq))
            ==> filtrar_modelo(b, q, max_freq).len() == 0,
    decreases q.len(),
{
    let r = filtrar_modelo(b, q, max_freq);
    if q.len() > 0 {
        let q0 = q.drop_last();
        let r0 = filtrar_modelo(b, q0, max_freq);
        lei_filtrar_query(b, q0, max_freq);
        assert forall|i: int| 0 <= i < r.len() implies {
            let (t, f) = #[trigger] r[i];
            &&& q.contains(t)
            &&& f == freq_modelo(b, t)
            &&& 1 <= f < max_freq
        } by {
            if i < r0.len() {
                assert(r[i] == r0[i]);
                let (t, f) = r0[i];
                let k = choose|k: int| 0 <= k < q0.len() && q0[k] == t;
                assert(q[k] == t);
            } else {
                assert(q[q.len() - 1] == q.last());
            }
        }
        assert forall|i: int| 0 <= i < q.len() && 1 <= freq_modelo(b, #[trigger] q[i]) < max_freq implies exists|j: int|
            0 <= j < r.len() && r[j].0 == q[i] by {
            if i < q.len() - 1 {
                assert(q0[i] == q[i]);
                assert(1 <= freq_modelo(b, q0[i]) < max_freq);
                let j = choose|j: int| 0 <= j < r0.len() && r0[j].0 == q0[i];
                assert(r[j] == r0[j]);
            } else {
                assert(r[r.len() - 1].0 == q[i]);
            }
        }
        if forall|i: int| 0 <= i < q.len() ==> !(1 <= #[trigger] freq_modelo(b, q[i]) < max_freq) {
            assert forall|i: int| 0 <= i < q0.len() implies !(1 <= #[trigger] freq_modelo(b, q0[i]) < max_freq) by {
                assert(q0[i] == q[i]);
            }
            assert(!(1 <= freq_modelo(b, q[q.len() - 1]) < max_freq));
        }
    }
}

/// Os documentos finais: as chaves de `ids`, cada uma uma vez, em ordem
/// não decrescente de id interno (a ordem entre ids iguais não é fixada).
pub open spec fn docs_finais(ids: Map<u32, u16>, docs: Seq<u32>) -> bool {
    &&& docs.len() == ids.dom().len()
    &&& docs.no_duplicates()
    &&& forall|i: int| 0 <= i < docs.len() ==> ids.contains_key(#[trigger] docs[i])
    &&& forall|i: int, j: int| 0 <= i <= j < docs.len() ==> ids[docs[i]] <= ids[docs[j]]
}

/// As listas finais: mesmas chaves, cada lista ordenada e com os mesmos elementos.
pub open spec fn listas_finais(antes: Map<u16, Seq<u16>>, depois: Map<u16, Seq<u16>>) -> bool {
    &&& depois.dom() == antes.dom()
    &&& forall|t: u16|
        #[trigger] depois.contains_key(t) ==> ordenada_u16(depois[t]) && depois[t].to_multiset()
            == antes[t].to_multiset()
}

/// Uma proporção não negativa, em partes por milhão: `500_000` é metade.
#[derive(Clone, Copy, Debug, PartialEq, Eq)]
pub struct Proporcao {
    pub por_milhao: u32,
}

/// Teto de `x / 1_000_000`, para `x >= 0`.
pub open spec fn teto_milionesimos(x: int) -> int {
    (x + 999_999) / 1_000_000
}

/// `min(x, u16::MAX)`.
pub open spec fn saturar_u16(x: int) -> u16 {
    if x < u16::MAX {
        x as u16
    } else {
        u16::MAX
    }
}

/// Em quantos documentos um token pode aparecer sem virar ruído: o teto
/// da proporção aplicada ao total de documentos, limitado a `u16::MAX`;
/// sem proporção, `u16::MAX`.
pub open spec fn max_freq_modelo(total: nat, max_df: Option<Proporcao>) -> u16 {
    match max_df {
        None => u16::MAX,
        Some(p) => saturar_u16(teto_milionesimos(total * p.por_milhao)),
    }
}

/// Quantos tokens a query final precisa compartilhar com um documento: o teto
/// de `proporcao * tam_query - removidos`, entre 1 e `u16::MAX`; sem
/// proporção, 0.
pub open spec fn min_overlap_modelo(tam_query: nat, tam_final: nat, p: Option<Proporcao>) -> u16 {
    match p {
        None => 0,
        Some(p) => {
            let num = p.por_milhao * tam_query - (tam_query - tam_final) * 1_000_000;
            if num <= 0 {
                1
            } else {
                saturar_u16(teto_milionesimos(num))
            }
        },
    }
}

/// Frequência de um token: o tamanho da sua lista, reduzido a 16 bits.
pub open spec fn freq_modelo(b: Map<u16, Seq<u16>>, t: u16) -> u16 {
    lista(b, t).len() as u16
}

/// Os tokens da query com frequência entre 1 e `max_freq - 1`, com a frequência.
pub open spec fn filtrar_modelo(b: Map<u16, Seq<u16>>, q: Seq<u16>, max_freq: u16) -> Seq<(u16, u16)>
    decreases q.len(),
{
    if q.len() == 0 {
        Seq::empty()
    } else {
        let r = filtrar_modelo(b, q.drop_last(), max_freq);
        let f = freq_modelo(b, q.last());
        if 0 < f && f < max_freq {
            r.push((q.last(), f))
        } else {
            r
        }
    }
}

/// Todos os tokens da query, com a frequência.
pub open spec fn com_freq_modelo(b: Map<u16, Seq<u16>>, q: Seq<u16>) -> Seq<(u16, u16)> {
    Seq::new(q.len(), |i: int| (q[i], freq_modelo(b, q[i])))
}

/// Insere `x` numa sequência ordenada pela frequência, depois dos que têm
/// frequência menor ou igual.
pub open spec fn inserir_por_freq(s: Seq<(u16, u16)>, x: (u16, u16)) -> Seq<(u16, u16)>
    decreases s.len(),
{
    if s.len() == 0 {
        seq![x]
    } else if s.last().1 <= x.1 {
        s.push(x)
    } else {
        inserir_por_freq(s.drop_last(), x).push(s.last())
    }
}

/// Ordenação estável pela frequência.
pub open spec fn ordenar_por_freq(s: Seq<(u16, u16)>) -> Seq<(u16, u16)>
    decreases s.len(),
{
    if s.len() == 0 {
        s
    } else {
        inserir_por_freq(ordenar_por_freq(s.drop_last()), s.last())
    }
}

/// A query final: os tokens não muito frequentes (ou todos, se sobrarem menos
/// de 3), em ordem crescente de frequência.
pub open spec fn preparar_modelo(b: Map<u16, Seq<u16>>, q: Seq<u16>, max_freq: u16) -> Seq<(u16, u16)> {
    let f = filtrar_modelo(b, q, max_freq);
    if f.len() < 3 {
        ordenar_por_freq(com_freq_modelo(b, q))
    } else {
        ordenar_por_freq(f)
    }
}

/// Contagem de um documento `d` ao ver um token, restando `rest` tokens da
/// query: entra na lista de ativos se ainda pode alcançar `min`, e é
/// zerado quando deixa de poder.
pub open spec fn passo_modelo(st: (Seq<u16>, Seq<u16>), d: u16, rest: u16, min: u16) -> (
    Seq<u16>,
    Seq<u16>,
) {
    let c = st.0[d as int];
    if c == 0 {
        if rest >= min {
            (st.0.update(d as int, 1), st.1.push(d))
        } else {
            st
        }
    } else if c + rest >= min {
        (st.0.update(d as int, if c < u16::MAX { (c + 1) as u16 } else { u16::MAX }), st.1)
    } else {
        (st.0.update(d as int, 0), st.1)
    }
}

/// `passo_modelo` para cada documento de uma lista, em ordem.
pub open spec fn passo_lista_modelo(st: (Seq<u16>, Seq<u16>), ds: Seq<u16>, rest: u16, min: u16) -> (
    Seq<u16>,
    Seq<u16>,
)
    decreases ds.len(),
{
    if ds.len() == 0 {
        st
    } else {
        passo_modelo(passo_lista_modelo(st, ds.drop_last(), rest, min), ds.last(), rest, min)
    }
}

/// As contagens e a lista de ativos depois de percorrer a query final.
pub open spec fn acumular_modelo(
    b: Map<u16, Seq<u16>>,
    qf: Seq<(u16, u16)>,
    tam: u16,
    min: u16,
    st: (Seq<u16>, Seq<u16>),
) -> (Seq<u16>, Seq<u16>)
    decreases qf.len(),
{
    if qf.len() == 0 {
        st
    } else {
        passo_lista_modelo(
            acumular_modelo(b, qf.drop_last(), tam, min, st),
            lista(b, qf.last().0),
            (tam - (qf.len() - 1)) as u16,
            min,
        )
    }
}

/// Os documentos devolvidos: os ativos, em ordem, cuja contagem alcança `min`.
pub open spec fn saida_modelo(ativos: Seq<u16>, cont: Seq<u16>, min: u16, docs: Seq<u32>) -> Seq<u32>
    decreases ativos.len(),
{
    if ativos.len() == 0 {
        Seq::empty()
    } else {
        let r = saida_modelo(ativos.drop_first(), cont, min, docs);
        if cont[ativos[0] as int] >= min {
            seq![docs[ativos[0] as int]] + r
        } else {
            r
        }
    }
}

/// Contagens iniciais: zero para cada documento.
pub open spec fn zeros(n: nat) -> Seq<u16> {
    Seq::new(n, |i: int| 0u16)
}

/// O resultado de `buscar`: os documentos, em ordem de ativação, que
/// compartilham com a query final pelo menos o mínimo de tokens. Uma query
/// vazia, ou de 65536 tokens (cujo tamanho em `u16` é zero), não acha nada.
pub open spec fn buscar_modelo(
    b: Map<u16, Seq<u16>>,
    docs: Seq<u32>,
    q: Seq<u16>,
    sobreposicao_min: Option<Proporcao>,
    max_df: Option<Proporcao>,
) -> Seq<u32> {
    if q.len() == 0 || q.len() == 0x10000 {
        Seq::empty()
    } else {
        let qf = preparar_modelo(b, q, max_freq_modelo(docs.len(), max_df));
        let min = min_overlap_modelo(q.len(), qf.len(), sobreposicao_min);
        let st = acumular_modelo(b, qf, q.len() as u16, min, (zeros(docs.len()), Seq::empty()));
        saida_modelo(st.1, st.0, min, docs)
    }
}

proof fn lema_inserir_posicao(s: Seq<(u16, u16)>, x: (u16, u16), k: int)
    requires
        0 <= k <= s.len(),
        forall|j: int| k <= j < s.len() ==> #[trigger] s[j].1 > x.1,
        k == 0 || s[k - 1].1 <= x.1,
    ensures
        inserir_por_freq(s, x) == s.insert(k, x),
    decreases s.len(),
{
    if s.len() == 0 {
        assert(s.insert(k, x) =~= seq![x]);
    } else if s.last().1 <= x.1 {
        assert(s.insert(k, x) =~= s.push(x));
    } else {
        lema_inserir_posicao(s.drop_last(), x, k);
        assert(s.drop_last().insert(k, x).push(s.last()) =~= s.insert(k, x));
    }
}

proof fn lema_ordenar_tamanho(s: Seq<(u16, u16)>)
    ensures
        ordenar_por_freq(s).len() == s.len(),
    decreases s.len(),
{
    if s.len() > 0 {
        lema_ordenar_tamanho(s.drop_last());
        lema_inserir_tamanho(ordenar_por_freq(s.drop_last()), s.last());
    }
}

proof fn lema_inserir_tamanho(s: Seq<(u16, u16)>, x: (u16, u16))
    ensures
        inserir_por_freq(s, x).len() == s.len() + 1,
    decreases s.len(),
{
    if s.len() > 0 && s.last().1 > x.1 {
        lema_inserir_tamanho(s.drop_last(), x);
    }
}

/// Ordenação estável (por inserção) pela frequência.
fn ordenar_estavel_por_freq(v: &Vec<(u16, u16)>) -> (r: Vec<(u16, u16)>)
    ensures
        r@ == ordenar_por_freq(v@),
{
    let mut r: Vec<(u16, u16)> = Vec::new();
    let mut i: usize = 0;
    while i < v.len()
        invariant
            i <= v@.len(),
            r@ == ordenar_por_freq(v@.take(i as int)),
        decreases v@.len() - i,
    {
        let x = v[i];
        let mut k: usize = r.len();
        while k > 0 && r[k - 1].1 > x.1
            invariant
                k <= r@.len(),
                forall|j: int| k <= j < r@.len() ==> #[trigger] r@[j].1 > x.1,
            decreases k,
        {
            k -= 1;
        }
        proof {
            lema_inserir_posicao(r@, x, k as int);
            assert(v@.take(i + 1).drop_last() =~= v@.take(i as int));
        }
        r.insert(k, x);
        i += 1;
    }
    assert(v@.take(v@.len() as int) =~= v@);
    r
}

/// Iterador sobre os documentos encontrados por `buscar`.
pub struct SearchIterator<'a> {
    min_overlap: Contagem,
    contagem: Vec<Contagem>,
    ativos: Vec<InternalDocId>,
    docs_ids_externo: &'a [Doc],
    pos: usize,
}

impl<'a> SearchIterator<'a> {
    /// Os documentos que ainda faltam ser devolvidos.
    pub closed spec fn restantes(&self) -> Seq<u32> {
        saida_modelo(
            self.ativos@.skip(self.pos as int),
            self.contagem@,
            self.min_overlap,
            self.docs_ids_externo@,
        )
    }

    /// A contagem de tokens em comum de cada documento (por id interno).
    pub closed spec fn contagens(&self) -> Seq<u16> {
        self.contagem@
    }

    /// Os ids internos ativados, em ordem de ativação, a partir da posição atual.
    pub closed spec fn lista_ativos(&self) -> Seq<u16> {
        self.ativos@.skip(self.pos as int)
    }

    /// Ainda nenhum documento foi devolvido.
    pub closed spec fn no_inicio(&self) -> bool {
        self.pos == 0
    }

    /// A contagem mínima para um documento ser devolvido.
    pub closed spec fn minimo(&self) -> u16 {
        self.min_overlap
    }

    /// Os documentos externos, indexados pelo id interno.
    pub closed spec fn docs_externos(&self) -> Seq<u32> {
        self.docs_ids_externo@
    }

    /// Boa formação: a posição está na lista de ativos, e todo ativo indexa
    /// as contagens e os documentos.
    pub closed spec fn wf(&self) -> bool {
        &&& self.pos <= self.ativos@.len()
        &&& forall|i: int|
            0 <= i < self.ativos@.len() ==> #[trigger] self.ativos@[i] < self.contagem@.len()
                && self.ativos@[i] < self.docs_ids_externo@.len()
    }

    /// Um iterador que não devolve nada.
    pub fn vazio() -> (r: Self)
        ensures
            r.wf(),
            r.restantes() == Seq::<u32>::empty(),
    {
        let r = SearchIterator {
            min_overlap: 0,
            contagem: Vec::new(),
            ativos: Vec::new(),
            docs_ids_externo: &[],
            pos: 0,
        };
        assert(r.ativos@.skip(0) =~= Seq::<u16>::empty());
        r
    }

    /// Um iterador ainda sem documentos ativos, com `capacity` contagens zeradas.
    pub fn new(min_overlap: Contagem, capacity: usize, docs: &'a [Doc]) -> (r: Self)
        ensures
            r.wf(),
            r.restantes() == Seq::<u32>::empty(),
            r.contagens() == zeros(capacity as nat),
            r.lista_ativos() == Seq::<u16>::empty(),
            r.minimo() == min_overlap,
            r.docs_externos() == docs@,
            r.no_inicio(),
    {
        let mut contagem: Vec<Contagem> = Vec::new();
        let mut i: usize = 0;
        while i < capacity
            invariant
                i <= capacity,
                contagem@ == zeros(i as nat),
            decreases capacity - i,
        {
            contagem.push(0);
            assert(contagem@ =~= zeros((i + 1) as nat));
            i += 1;
        }
        let r = SearchIterator {
            min_overlap,
            contagem,
            ativos: Vec::with_capacity(capacity / 10),
            docs_ids_externo: docs,
            pos: 0,
        };
        assert(r.ativos@.skip(0) =~= Seq::<u16>::empty());
        r
    }

    /// O próximo documento encontrado, ou `None` quando acabaram.
    pub fn next(&mut self) -> (r: Option<Doc>)
        requires
            old(self).wf(),
        ensures
            final(self).wf(),
            match r {
                Some(d) => old(self).restantes().len() > 0 && d == old(self).restantes()[0]
                    && final(self).restantes() == old(self).restantes().drop_first()
                    && old(self).docs_externos().contains(d),
                None => old(self).restantes().len() == 0 && final(self).restantes()
                    == old(self).restantes(),
            },
            final(self).docs_externos() == old(self).docs_externos(),
            final(self).contagens() == old(self).contagens(),
            final(self).minimo() == old(self).minimo(),
            match r {
                Some(d) => exists|k: int|
                    0 <= k < old(self).lista_ativos().len() && old(self).contagens()[
                        #[trigger] old(self).lista_ativos()[k] as int] >= old(self).minimo() && (
                    forall|j: int|
                        0 <= j < k ==> old(self).contagens()[#[trigger] old(self).lista_ativos()[j] as int]
                            < old(self).minimo()) && d == old(self).docs_externos()[old(
                        self,
                    ).lista_ativos()[k] as int] && final(self).lista_ativos() == old(
                        self,
                    ).lista_ativos().skip(k + 1),
                None => final(self).lista_ativos() == Seq::<u16>::empty() && forall|j: int|
                    0 <= j < old(self).lista_ativos().len() ==> old(self).contagens()[
                        #[trigger] old(self).lista_ativos()[j] as int] < old(self).minimo(),
            },
    {
        let ghost ini = self.ativos@.skip(self.pos as int);
        let ghost p0 = self.pos as int;
        while self.pos < self.ativos.len()
            invariant
                self.wf(),
                self.min_overlap == old(self).min_overlap,
                self.contagem == old(self).contagem,
                self.ativos == old(self).ativos,
                self.docs_ids_externo == old(self).docs_ids_externo,
                self.restantes() == old(self).restantes(),
                p0 == old(self).pos,
                ini == old(self).lista_ativos(),
                p0 <= self.pos,
                forall|j: int|
                    0 <= j < self.pos - p0 ==> self.contagem@[#[trigger] ini[j] as int] < self.min_overlap,
            decreases self.ativos@.len() - self.pos,
        {
            let doc_id = self.ativos[self.pos];
            let ghost resto = self.ativos@.skip(self.pos as int);
            assert(resto[0] == doc_id);
            assert(resto.drop_first() =~= self.ativos@.skip(self.pos + 1));
            assert(ini[self.pos - p0] == doc_id);
            self.pos += 1;
            let qtd = self.contagem[doc_id as usize];
            if qtd >= self.min_overlap {
                assert(self.docs_ids_externo@.contains(self.docs_ids_externo@[doc_id as int]));
                proof {
                    let k = self.pos - 1 - p0;
                    assert(ini.skip(k + 1) =~= self.ativos@.skip(self.pos as int));
                    assert(old(self).contagens()[ini[k] as int] >= old(self).minimo());
                }
                return Some(self.docs_ids_externo[doc_id as usize]);
            }
        }
        assert(self.ativos@.skip(self.pos as int) =~= Seq::<u16>::empty());
        None
    }

    /// Todos os documentos restantes, em ordem.
    pub fn coletar(&mut self) -> (r: Vec<Doc>)
        requires
            old(self).wf(),
        ensures
            final(self).wf(),
            r@ == old(self).restantes(),
            final(self).restantes() == Seq::<u32>::empty(),
            forall|i: int| 0 <= i < r@.len() ==> old(self).docs_externos().contains(#[trigger] r@[i]),
    {
        let ghost inicio = self.restantes();
        let mut r: Vec<Doc> = Vec::new();
        loop
            invariant
                self.wf(),
                inicio == r@ + self.restantes(),
                self.docs_externos() == old(self).docs_externos(),
                forall|i: int| 0 <= i < r@.len() ==> old(self).docs_externos().contains(#[trigger] r@[i]),
            ensures
                self.wf(),
                inicio == r@,
                self.restantes() == Seq::<u32>::empty(),
                forall|i: int| 0 <= i < r@.len() ==> old(self).docs_externos().contains(#[trigger] r@[i]),
            decreases self.restantes().len(),
        {
            match self.next() {
                Some(d) => {
                    r.push(d);
                    assert(inicio =~= r@ + self.restantes());
                },
                None => {
                    assert(self.restantes() =~= Seq::<u32>::empty());
                    assert(inicio =~= r@);
                    break ;
                },
            }
        }
        r
    }
}

/// Índice invertido: de cada token para os ids internos dos documentos
/// que o contêm.
#[derive(Clone)]
pub struct InvertedIndex {
    pub buckets: FxHashMap<Token, Vec<InternalDocId>>,
    pub docs_to_id: FxHashMap<Doc, InternalDocId>,
    pub docs: Vec<Doc>,
}

impl InvertedIndex {
    /// De cada token para a lista de ids internos dos documentos que o contêm.
    pub open spec fn baldes(&self) -> Map<u16, Seq<u16>> {
        conteudo_u16_lista(self.buckets)
    }

    /// De cada documento para o seu id interno (vazio depois de `finalizar`).
    pub open spec fn ids(&self) -> Map<u32, u16> {
        conteudo_u32_u16(self.docs_to_id)
    }

    /// Os documentos em ordem de id interno (preenchido por `finalizar`).
    pub open spec fn lista_docs(&self) -> Seq<u32> {
        self.docs@
    }

    /// Boa formação: mapas finitos.
    pub open spec fn wf(&self) -> bool {
        &&& self.baldes().dom().finite()
        &&& self.ids().dom().finite()
    }

    /// Todo id guardado nas listas é menor que o número de documentos em `docs_to_id`.
    pub closed spec fn ids_cobrem_baldes(&self) -> bool {
        &&& forall|d: u32| #[trigger] self.ids().contains_key(d) ==> self.ids()[d] < self.ids().dom().len()
        &&& forall|t: u16, i: int|
            #![trigger self.baldes()[t][i]]
            self.baldes().contains_key(t) && 0 <= i < self.baldes()[t].len()
                ==> self.baldes()[t][i] < self.ids().dom().len()
    }

    /// Todo id guardado nas listas indexa `docs`: a busca pode ser feita.
    pub open spec fn buscavel(&self) -> bool {
        forall|t: u16, i: int|
            #![trigger self.baldes()[t][i]]
            self.baldes().contains_key(t) && 0 <= i < self.baldes()[t].len()
                ==> self.baldes()[t][i] < self.docs@.len()
    }

    /// Um índice com os mapas e os documentos dados.
    pub(crate) fn de_mapas(
        buckets: FxHashMap<Token, Vec<InternalDocId>>,
        docs_to_id: FxHashMap<Doc, InternalDocId>,
        docs: Vec<Doc>,
    ) -> (r: Self)
        requires
            conteudo_u16_lista(buckets).dom().finite(),
            conteudo_u32_u16(docs_to_id).dom().finite(),
        ensures
            r.wf(),
            r.baldes() == conteudo_u16_lista(buckets),
            r.ids() == conteudo_u32_u16(docs_to_id),
            r.lista_docs() == docs@,
            (forall|t: u16, i: int|
                #![trigger r.baldes()[t][i]]
                r.baldes().contains_key(t) && 0 <= i < r.baldes()[t].len() ==> r.baldes()[t][i]
                    < docs@.len()) ==> r.buscavel(),
    {
        InvertedIndex { buckets, docs_to_id, docs }
    }

    /// Registra `doc` (se ainda não tem id interno) e acrescenta o seu id
    /// interno à lista de cada token.
    pub fn add(&mut self, tokens: &[Token], doc: Doc)
        requires
            old(self).wf(),
        ensures
            final(self).wf(),
            final(self).ids() == id_modelo(old(self).ids(), doc).0,
            final(self).baldes() == acrescentar(
                old(self).baldes(),
                tokens@,
                id_modelo(old(self).ids(), doc).1,
            ),
            final(self).lista_docs() == old(self).lista_docs(),
            old(self).ids_cobrem_baldes() ==> final(self).ids_cobrem_baldes(),
    {
        let novo_doc_id = u32_u16_tamanho(&self.docs_to_id);
        let doc_id = match u32_u16_obter(&self.docs_to_id, doc) {
            Some(id) => id,
            None => {
                let id = #[verifier::truncate] (novo_doc_id as InternalDocId);
                u32_u16_inserir(&mut self.docs_to_id, doc, id);
                id
            },
        };
        proof {
            if !old(self).ids().contains_key(doc) {
                assert(self.ids().dom() == old(self).ids().dom().insert(doc));
            }
            assert(self.ids().dom().len() >= old(self).ids().dom().len());
            if old(self).ids_cobrem_baldes() {
                if !old(self).ids().contains_key(doc) {
                    assert((#[verifier::truncate] (novo_doc_id as u16)) as int <= novo_doc_id) by (bit_vector);
                }
                assert(doc_id < self.ids().dom().len());
                assert forall|d: u32| #[trigger] self.ids().contains_key(d) implies self.ids()[d]
                    < self.ids().dom().len() by {
                    if d != doc {
                        assert(old(self).ids().contains_key(d));
                    }
                }
            }
        }
        let mut i: usize = 0;
        while i < tokens.len()
            invariant
                i <= tokens@.len(),
                self.wf(),
                self.ids() == id_modelo(old(self).ids(), doc).0,
                doc_id == id_modelo(old(self).ids(), doc).1,
                self.docs == old(self).docs,
                self.baldes() == acrescentar(old(self).baldes(), tokens@.take(i as int), doc_id),
            decreases tokens@.len() - i,
        {
            let t = tokens[i];
            let mut v = match u16_lista_remover(&mut self.buckets, t) {
                Some(v) => v,
                None => Vec::new(),
            };
            v.push(doc_id);
            u16_lista_inserir(&mut self.buckets, t, v);
            proof {
                let ts = tokens@.take(i + 1);
                assert(ts.drop_last() =~= tokens@.take(i as int));
                assert(ts.last() == t);
                assert(self.baldes() =~= acrescentar(old(self).baldes(), ts, doc_id));
            }
            i += 1;
        }
        assert(tokens@.take(tokens@.len() as int) =~= tokens@);
        proof {
            if old(self).ids_cobrem_baldes() {
                assert(doc_id < self.ids().dom().len());
                self.lema_cobertura_apos_add(old(self).baldes(), old(self).ids(), tokens@, doc_id);
            }
        }
    }

    /// Ordena a lista de cada token e monta `docs` com os documentos em
    /// ordem de id interno; `docs_to_id` fica vazio.
    pub fn finalizar(&mut self)
        requires
            old(self).wf(),
        ensures
            final(self).wf(),
            listas_finais(old(self).baldes(), final(self).baldes()),
            docs_finais(old(self).ids(), final(self).lista_docs()),
            final(self).ids() == Map::<u32, u16>::empty(),
            old(self).ids_cobrem_baldes() ==> final(self).buscavel(),
    {
        let chaves = u16_lista_chaves(&self.buckets);
        let ghost b0 = self.baldes();
        let mut k: usize = 0;
        while k < chaves.len()
            invariant
                k <= chaves@.len(),
                chaves@.no_duplicates(),
                forall|t: u16| chaves@.contains(t) <==> b0.contains_key(t),
                self.wf(),
                self.ids() == old(self).ids(),
                self.docs == old(self).docs,
                self.baldes().dom() == b0.dom(),
                forall|t: u16|
                    #[trigger] self.baldes().contains_key(t) ==> self.baldes()[t].to_multiset()
                        == b0[t].to_multiset(),
                forall|j: int| 0 <= j < k ==> ordenada_u16(self.baldes()[#[trigger] chaves@[j]]),
                forall|t: u16|
                    #[trigger] self.baldes().contains_key(t) && !chaves@.take(k as int).contains(t)
                        ==> self.baldes()[t] == b0[t],
            decreases chaves@.len() - k,
        {
            let t = chaves[k];
            assert(chaves@.contains(t));
            let ghost antes = self.baldes();
            match u16_lista_remover(&mut self.buckets, t) {
                Some(mut v) => {
                    ordenar_u16(&mut v);
                    encolher_vec(&mut v);
                    u16_lista_inserir(&mut self.buckets, t, v);
                    proof {
                        assert(self.baldes().dom() =~= antes.dom());
                        assert forall|j: int| 0 <= j < k + 1 implies ordenada_u16(
                            self.baldes()[#[trigger] chaves@[j]],
                        ) by {
                            if j < k {
                                assert(chaves@[j] != t);
                            }
                        }
                        assert forall|u: u16|
                            #[trigger] self.baldes().contains_key(u) && !chaves@.take(
                                k + 1,
                            ).contains(u) implies self.baldes()[u] == b0[u] by {
                            assert(u != t) by {
                                assert(chaves@.take(k + 1)[k as int] == t);
                            }
                            if chaves@.take(k as int).contains(u) {
                                let w = choose|w: int| 0 <= w < k && chaves@.take(k as int)[w] == u;
                                assert(chaves@.take(k + 1)[w] == u);
                            }
                        }
                    }
                },
                None => {
                    assert(false);
                },
            }
            k += 1;
        }
        proof {
            assert forall|t: u16| #[trigger] self.baldes().contains_key(t) implies ordenada_u16(
                self.baldes()[t],
            ) by {
                assert(chaves@.contains(t));
                let j = choose|j: int| 0 <= j < chaves@.len() && chaves@[j] == t;
            }
        }
        u16_lista_encolher(&mut self.buckets);
        let mut pares = u32_u16_entradas(&self.docs_to_id);
        let ghost pares0 = pares@;
        ordenar_pela_segunda(&mut pares);
        let ghost ids0 = self.ids();
        proof {
            self.lema_pares_ordenados(ids0, pares0, pares@);
        }
        let mut docs: Vec<Doc> = Vec::new();
        let mut i: usize = 0;
        while i < pares.len()
            invariant
                i <= pares@.len(),
                docs@.len() == i,
                forall|j: int| 0 <= j < i ==> docs@[j] == #[trigger] pares@[j].0,
            decreases pares@.len() - i,
        {
            docs.push(pares[i].0);
            i += 1;
        }
        encolher_vec(&mut docs);
        self.docs = docs;
        self.docs_to_id = u32_u16_novo();
        proof {
            assert(docs_finais(ids0, self.docs@)) by {
                assert forall|a: int, c: int| 0 <= a < c < self.docs@.len() implies self.docs@[a]
                    != self.docs@[c] by {
                    assert(pares@[a].0 == self.docs@[a]);
                    assert(pares@[c].0 == self.docs@[c]);
                }
                assert forall|a: int, c: int| 0 <= a <= c < self.docs@.len() implies ids0[self.docs@[a]] <= ids0[self.docs@[c]] by {
                    assert(pares@[a].0 == self.docs@[a]);
                    assert(pares@[c].0 == self.docs@[c]);
                }
                assert forall|a: int| 0 <= a < self.docs@.len() implies ids0.contains_key(#[trigger] self.docs@[a]) by {
                    assert(pares@[a].0 == self.docs@[a]);
                }
            }
            if old(self).ids_cobrem_baldes() {
                assert forall|t: u16, j: int|
                    self.baldes().contains_key(t) && 0 <= j < self.baldes()[t].len()
                    implies #[trigger] self.baldes()[t][j] < self.docs@.len() by {
                    let x = self.baldes()[t][j];
                    assert(self.baldes()[t].contains(x));
                    assert(self.baldes()[t].to_multiset().count(x) > 0);
                    assert(b0[t].to_multiset().count(x) > 0);
                    assert(b0[t].contains(x));
                    let w = choose|w: int| 0 <= w < b0[t].len() && b0[t][w] == x;
                    assert(b0[t][w] < ids0.dom().len());
                }
            }
        }
    }

    proof fn lema_pares_ordenados(&self, ids: Map<u32, u16>, p0: Seq<(u32, u16)>, p: Seq<(u32, u16)>)
        requires
            p0.len() == ids.dom().len(),
            forall|i: int| 0 <= i < p0.len() ==> {
                &&& ids.contains_key(#[trigger] p0[i].0)
                &&& ids[p0[i].0] == p0[i].1
            },
            forall|i: int, j: int| 0 <= i < j < p0.len() ==> #[trigger] p0[i].0 != #[trigger] p0[j].0,
            p.to_multiset() == p0.to_multiset(),
            ordenada_pela_segunda(p),
        ensures
            p.len() == ids.dom().len(),
            forall|i: int| 0 <= i < p.len() ==> {
                &&& ids.contains_key(#[trigger] p[i].0)
                &&& ids[p[i].0] == p[i].1
            },
            forall|i: int, j: int| 0 <= i < j < p.len() ==> #[trigger] p[i].0 != #[trigger] p[j].0,
    {
        vstd::seq_lib::to_multiset_len(p);
        vstd::seq_lib::to_multiset_len(p0);
        assert(p.len() == p0.len());
        assert forall|i: int| 0 <= i < p.len() implies {
            &&& ids.contains_key(#[trigger] p[i].0)
            &&& ids[p[i].0] == p[i].1
        } by {
            assert(p.contains(p[i]));
            assert(p0.to_multiset().count(p[i]) > 0);
            assert(p0.contains(p[i]));
        }
        assert(p0.no_duplicates()) by {
            assert forall|i: int, j: int| 0 <= i < p0.len() && 0 <= j < p0.len() && i != j implies p0[i] != p0[j] by {
                if i < j {
                    assert(p0[i].0 != p0[j].0);
                } else {
                    assert(p0[j].0 != p0[i].0);
                }
            }
        }
        p0.lemma_multiset_has_no_duplicates();
        p.lemma_multiset_has_no_duplicates_conv();
        assert forall|i: int, j: int| 0 <= i < j < p.len() implies #[trigger] p[i].0 != #[trigger] p[j].0 by {
            if p[i].0 == p[j].0 {
                assert(p[i].1 == ids[p[i].0]);
                assert(p[j].1 == ids[p[j].0]);
                assert(p[i] == p[j]);
            }
        }
    }

    /// Em quantos documentos o token aparece (tamanho da sua lista, em 16 bits).
    pub fn frequencia_token(&self, token: &Token) -> (r: Contagem)
        ensures
            r == freq_modelo(self.baldes(), *token),
    {
        match u16_lista_obter(&self.buckets, *token) {
            Some(p) => #[verifier::truncate] (p.len() as Contagem),
            None => 0,
        }
    }

    /// Número de documentos em `docs`.
    pub fn total_docs(&self) -> (r: usize)
        ensures
            r == self.lista_docs().len(),
    {
        self.docs.len()
    }

    /// Em quantos documentos diferentes um token pode existir sem se tornar
    /// ruído (ex: RUA no contexto de logradouros).
    pub fn max_freq_aceitavel(&self, max_df_freq: Option<Proporcao>) -> (r: Contagem)
        ensures
            r == max_freq_modelo(self.lista_docs().len(), max_df_freq),
    {
        match max_df_freq {
            None => Contagem::MAX,
            Some(p) => {
                let total = self.total_docs() as u128;
                let ppm = p.por_milhao as u128;
                assert(total * ppm <= 0xffff_ffff_ffff_ffffu128 * 0xffff_ffffu128) by (nonlinear_arith)
                    requires
                        total <= 0xffff_ffff_ffff_ffffu128,
                        ppm <= 0xffff_ffffu128,
                ;
                let x = (total * ppm + 999_999) / 1_000_000;
                if x < Contagem::MAX as u128 {
                    x as Contagem
                } else {
                    Contagem::MAX
                }
            },
        }
    }

    /// A query final: descarta os tokens muito frequentes (a não ser que
    /// sobrem menos de 3) e ordena pela quantidade de documentos em que
    /// cada um aparece, para priorizar as contagens.
    pub fn preparar_query(&self, query: &[Token], max_freq_aceitavel: Contagem) -> (r: Vec<
        (Token, Contagem),
    >)
        ensures
            r@ == preparar_modelo(self.baldes(), query@, max_freq_aceitavel),
            r@.len() <= query@.len(),
    {
        let mut filtrada: Vec<(Token, Contagem)> = Vec::new();
        let mut i: usize = 0;
        while i < query.len()
            invariant
                i <= query@.len(),
                filtrada@ == filtrar_modelo(self.baldes(), query@.take(i as int), max_freq_aceitavel),
                filtrada@.len() <= i,
            decreases query@.len() - i,
        {
            let t = query[i];
            let freq = self.frequencia_token(&t);
            assert(query@.take(i + 1).drop_last() =~= query@.take(i as int));
            if freq > 0 && freq < max_freq_aceitavel {
                filtrada.push((t, freq));
            }
            i += 1;
        }
        assert(query@.take(query@.len() as int) =~= query@);
        let ghost f = filtrada@;
        if filtrada.len() < 3 {
            filtrada = Vec::new();
            let mut j: usize = 0;
            while j < query.len()
                invariant
                    j <= query@.len(),
                    filtrada@ =~= com_freq_modelo(self.baldes(), query@).take(j as int),
                decreases query@.len() - j,
            {
                let t = query[j];
                let freq = self.frequencia_token(&t);
                filtrada.push((t, freq));
                j += 1;
            }
            assert(com_freq_modelo(self.baldes(), query@).take(query@.len() as int) =~= com_freq_modelo(self.baldes(), query@));
        }
        assert(filtrada@ == (if f.len() < 3 { com_freq_modelo(self.baldes(), query@) } else { f }));
        let r = ordenar_estavel_por_freq(&filtrada);
        proof {
            lema_ordenar_tamanho(filtrada@);
        }
        r
    }

    /// Quantos tokens a query final deve compartilhar com cada documento,
    /// descontando os tokens já removidos por serem muito frequentes.
    pub fn calcular_min_overlap(
        query_len: usize,
        query_final_len: usize,
        sobreposicao_min: Option<Proporcao>,
    ) -> (r: Contagem)
        requires
            query_final_len <= query_len,
        ensures
            r == min_overlap_modelo(query_len as nat, query_final_len as nat, sobreposicao_min),
    {
        match sobreposicao_min {
            None => 0,
            Some(p) => {
                let tam = query_len as u128;
                let ppm = p.por_milhao as u128;
                assert(ppm * tam <= 0xffff_ffffu128 * 0xffff_ffff_ffff_ffffu128) by (nonlinear_arith)
                    requires
                        tam <= 0xffff_ffff_ffff_ffffu128,
                        ppm <= 0xffff_ffffu128,
                ;
                let a = ppm * tam;
                let b = (query_len - query_final_len) as u128 * 1_000_000;
                if a <= b {
                    1
                } else {
                    let x = (a - b + 999_999) / 1_000_000;
                    if x < Contagem::MAX as u128 {
                        x as Contagem
                    } else {
                        Contagem::MAX
                    }
                }
            },
        }
    }

    /// Conta, para cada documento, quantos tokens tem em comum com a query
    /// final, descartando os que já não podem alcançar o mínimo.
    fn acumular_contagens(
        &self,
        query_final: &[(Token, Contagem)],
        tam_query: Contagem,
        min_overlap: Contagem,
        resultado: &mut SearchIterator<'_>,
    )
        requires
            self.buscavel(),
            old(resultado).wf(),
            old(resultado).contagem@.len() == self.docs@.len(),
            old(resultado).docs_ids_externo@.len() == self.docs@.len(),
            query_final@.len() <= tam_query,
        ensures
            final(resultado).wf(),
            final(resultado).min_overlap == old(resultado).min_overlap,
            final(resultado).pos == old(resultado).pos,
            final(resultado).docs_ids_externo == old(resultado).docs_ids_externo,
            (final(resultado).contagem@, final(resultado).ativos@) == acumular_modelo(
                self.baldes(),
                query_final@,
                tam_query,
                min_overlap,
                (old(resultado).contagem@, old(resultado).ativos@),
            ),
    {
        let ghost st0 = (resultado.contagem@, resultado.ativos@);
        let mut i: usize = 0;
        while i < query_final.len()
            invariant
                i <= query_final@.len(),
                query_final@.len() <= tam_query,
                self.buscavel(),
                resultado.wf(),
                resultado.contagem@.len() == self.docs@.len(),
                resultado.docs_ids_externo@.len() == self.docs@.len(),
                resultado.min_overlap == old(resultado).min_overlap,
                resultado.pos == old(resultado).pos,
                resultado.docs_ids_externo == old(resultado).docs_ids_externo,
                (resultado.contagem@, resultado.ativos@) == acumular_modelo(
                    self.baldes(),
                    query_final@.take(i as int),
                    tam_query,
                    min_overlap,
                    st0,
                ),
            decreases query_final@.len() - i,
        {
            let (token, _) = query_final[i];
            let ngrams_restantes: Contagem = tam_query - i as Contagem;
            let ghost qi = query_final@.take(i + 1);
            assert(qi.drop_last() =~= query_final@.take(i as int));
            assert(qi.last().0 == token);
            let ghost st_i = (resultado.contagem@, resultado.ativos@);
            match u16_lista_obter(&self.buckets, token) {
                Some(documentos) => {
                    let mut j: usize = 0;
                    while j < documentos.len()
                        invariant
                            j <= documentos@.len(),
                            documentos@ == self.baldes()[token],
                            self.baldes().contains_key(token),
                            self.buscavel(),
                            resultado.wf(),
                            resultado.contagem@.len() == self.docs@.len(),
                            resultado.docs_ids_externo@.len() == self.docs@.len(),
                            resultado.min_overlap == old(resultado).min_overlap,
                            resultado.pos == old(resultado).pos,
                            resultado.docs_ids_externo == old(resultado).docs_ids_externo,
                            (resultado.contagem@, resultado.ativos@) == passo_lista_modelo(
                                st_i,
                                documentos@.take(j as int),
                                ngrams_restantes,
                                min_overlap,
                            ),
                        decreases documentos@.len() - j,
                    {
                        let doc = documentos[j];
                        assert(doc < self.docs@.len()) by {
                            assert(self.baldes()[token][j as int] == doc);
                        }
                        assert(documentos@.take(j + 1).drop_last() =~= documentos@.take(j as int));
                        let cont = resultado.contagem[doc as usize];
                        if cont == 0 {
                            if ngrams_restantes >= min_overlap {
                                resultado.contagem.set(doc as usize, 1);
                                resultado.ativos.push(doc);
                            }
                        } else if cont as u32 + ngrams_restantes as u32 >= min_overlap as u32 {
                            let novo = if cont < Contagem::MAX {
                                cont + 1
                            } else {
                                Contagem::MAX
                            };
                            resultado.contagem.set(doc as usize, novo);
                        } else {
                            resultado.contagem.set(doc as usize, 0);
                        }
                        proof {
                            assert forall|k: int| 0 <= k < resultado.ativos@.len() implies #[trigger] resultado.ativos@[k]
                                < resultado.contagem@.len() && resultado.ativos@[k]
                                < resultado.docs_ids_externo@.len() by {
                            }
                        }
                        j += 1;
                    }
                    assert(documentos@.take(documentos@.len() as int) =~= documentos@);
                },
                None => {
                    assert(lista(self.baldes(), token) == Seq::<u16>::empty());
                },
            }
            i += 1;
        }
        assert(query_final@.take(query_final@.len() as int) =~= query_final@);
    }

    /// Os documentos que compartilham com a query pelo menos o mínimo de tokens.
    pub fn buscar(
        &self,
        query: &[Token],
        sobreposicao_min: Option<Proporcao>,
        max_df_freq: Option<Proporcao>,
    ) -> (r: SearchIterator<'_>)
        requires
            self.buscavel(),
            query@.len() <= 0x10000,
        ensures
            r.wf(),
            r.docs_externos() == self.lista_docs() || r.restantes() == Seq::<u32>::empty(),
            r.restantes() == buscar_modelo(
                self.baldes(),
                self.lista_docs(),
                query@,
                sobreposicao_min,
                max_df_freq,
            ),
    {
        if query.len() == 0 || query.len() == 0x10000 {
            return SearchIterator::vazio();
        }
        let tam_query = query.len() as Contagem;
        let max_freq_aceitavel = self.max_freq_aceitavel(max_df_freq);
        let query_final = self.preparar_query(query, max_freq_aceitavel);
        let min_overlap = Self::calcular_min_overlap(query.len(), query_final.len(), sobreposicao_min);
        let mut resultado = SearchIterator::new(min_overlap, self.total_docs(), self.docs.as_slice());
        let ghost qf = preparar_modelo(self.baldes(), query@, max_freq_modelo(self.docs@.len(), max_df_freq));
        assert(query_final@ == qf);
        assert(min_overlap == min_overlap_modelo(query@.len(), qf.len(), sobreposicao_min));
        assert(resultado.contagem@ == zeros(self.docs@.len()));
        assert(tam_query == query@.len() as u16);
        assert(resultado.ativos@.skip(0) == resultado.ativos@);
        assert(resultado.ativos@ =~= Seq::<u16>::empty());
        self.acumular_contagens(query_final.as_slice(), tam_query, min_overlap, &mut resultado);
        assert(resultado.ativos@.skip(0) == resultado.ativos@);
        assert(resultado.docs_ids_externo@ == self.docs@);
        assert(resultado.pos == 0);
        assert(resultado.min_overlap == min_overlap);
        let ghost st = acumular_modelo(self.baldes(), qf, query@.len() as u16, min_overlap, (zeros(self.docs@.len()), Seq::empty()));
        assert(resultado.contagem@ == st.0);
        assert(resultado.ativos@ == st.1);
        assert(resultado.restantes() == saida_modelo(st.1, st.0, min_overlap, self.docs@));
        resultado
    }

    proof fn lema_cobertura_apos_add(
        &self,
        b0: Map<u16, Seq<u16>>,
        ids0: Map<u32, u16>,
        tokens: Seq<u16>,
        d: u16,
    )
        requires
            forall|t: u16, i: int|
                #![trigger b0[t][i]]
                b0.contains_key(t) && 0 <= i < b0[t].len() ==> b0[t][i] < ids0.dom().len(),
            ids0.dom().len() <= self.ids().dom().len(),
            d < self.ids().dom().len(),
            forall|x: u32| #[trigger] self.ids().contains_key(x) ==> self.ids()[x] < self.ids().dom().len(),
            self.baldes() == acrescentar(b0, tokens, d),
        ensures
            self.ids_cobrem_baldes(),
        decreases tokens.len(),
    {
        Self::lema_acrescentar_limite(b0, tokens, d, self.ids().dom().len());
    }

    proof fn lema_acrescentar_limite(b0: Map<u16, Seq<u16>>, tokens: Seq<u16>, d: u16, n: nat)
        requires
            forall|t: u16, i: int|
                #![trigger b0[t][i]]
                b0.contains_key(t) && 0 <= i < b0[t].len() ==> b0[t][i] < n,
            d < n,
        ensures
            forall|t: u16, i: int|
                #![trigger acrescentar(b0, tokens, d)[t][i]]
                acrescentar(b0, tokens, d).contains_key(t) && 0 <= i < acrescentar(
                    b0,
                    tokens,
                    d,
                )[t].len() ==> acrescentar(b0, tokens, d)[t][i] < n,
        decreases tokens.len(),
    {
        if tokens.len() > 0 {
            Self::lema_acrescentar_limite(b0, tokens.drop_last(), d, n);
            let b1 = acrescentar(b0, tokens.drop_last(), d);
            assert forall|t: u16, i: int|
                acrescentar(b0, tokens, d).contains_key(t) && 0 <= i < acrescentar(
                    b0,
                    tokens,
                    d,
                )[t].len() implies #[trigger] acrescentar(b0, tokens, d)[t][i] < n by {
                if t != tokens.last() {
                    assert(b1[t][i] < n);
                } else if i < lista(b1, t).len() {
                    assert(b1[t][i] < n);
                }
            }
        }
    }
}

impl Default for InvertedIndex {
    fn default() -> (r: Self)
        ensures
            r.wf(),
            r.baldes() == Map::<u16, Seq<u16>>::empty(),
            r.ids() == Map::<u32, u16>::empty(),
            r.lista_docs() == Seq::<u32>::empty(),
            r.ids_cobrem_baldes(),
            r.buscavel(),
    {
        InvertedIndex { buckets: u16_lista_novo(), docs_to_id: u32_u16_novo(), docs: Vec::new() }
    }
}

/// Contagens de `n` documentos num ponto da busca em que restam `r` tokens:
/// os ativos são documentos distintos, todo documento com contagem positiva
/// está ativo, e um ativo zerado só existe quando `r` já não alcança o mínimo.
pub open spec fn contagem_valida(st: (Seq<u16>, Seq<u16>), r: int, min: u16, n: nat) -> bool {
    &&& st.0.len() == n
    &&& st.1.no_duplicates()
    &&& forall|k: int| 0 <= k < st.1.len() ==> #[trigger] st.1[k] < n
    &&& forall|k: int| 0 <= k < st.1.len() && st.0[#[trigger] st.1[k] as int] == 0 ==> r < min
    &&& forall|d: u16| d < n && #[trigger] st.0[d as int] > 0 ==> st.1.contains(d)
}

proof fn lema_passo_valido(st: (Seq<u16>, Seq<u16>), d: u16, r: u16, min: u16, n: nat)
    requires
        contagem_valida(st, r as int, min, n),
        d < n,
    ensures
        contagem_valida(passo_modelo(st, d, r, min), r as int, min, n),
{
    let st1 = passo_modelo(st, d, r, min);
    let c = st.0[d as int];
    if c == 0 && r >= min {
        assert(!st.1.contains(d)) by {
            if st.1.contains(d) {
                let k = choose|k: int| 0 <= k < st.1.len() && st.1[k] == d;
                assert(st.0[st.1[k] as int] == 0);
            }
        }
        assert(st1.1[st.1.len() as int] == d);
        assert forall|x: u16| x < n && #[trigger] st1.0[x as int] > 0 implies st1.1.contains(x) by {
            if x != d {
                assert(st.1.contains(x));
                let k = choose|k: int| 0 <= k < st.1.len() && st.1[k] == x;
                assert(st1.1[k] == x);
            }
        }
    } else if c > 0 && c + r >= min {
        assert(st.1.contains(d));
    } else if c > 0 {
        assert forall|x: u16| x < n && #[trigger] st1.0[x as int] > 0 implies st1.1.contains(x) by {
            assert(st.0[x as int] > 0);
        }
    }
}

proof fn lema_passo_lista_valido(st: (Seq<u16>, Seq<u16>), ds: Seq<u16>, r: u16, min: u16, n: nat)
    requires
        contagem_valida(st, r as int, min, n),
        forall|i: int| 0 <= i < ds.len() ==> #[trigger] ds[i] < n,
    ensures
        contagem_valida(passo_lista_modelo(st, ds, r, min), r as int, min, n),
    decreases ds.len(),
{
    if ds.len() > 0 {
        let d0 = ds.drop_last();
        assert forall|i: int| 0 <= i < d0.len() implies #[trigger] d0[i] < n by {
            assert(d0[i] == ds[i]);
        }
        lema_passo_lista_valido(st, d0, r, min, n);
        lema_passo_valido(passo_lista_modelo(st, d0, r, min), ds.last(), r, min, n);
    }
}

proof fn lema_acumular_valido(b: Map<u16, Seq<u16>>, qf: Seq<(u16, u16)>, tam: u16, min: u16, n: nat)
    requires
        qf.len() <= tam,
        forall|t: u16, i: int|
            #![trigger b[t][i]]
            b.contains_key(t) && 0 <= i < b[t].len() ==> b[t][i] < n,
    ensures
        contagem_valida(
            acumular_modelo(b, qf, tam, min, (zeros(n), Seq::empty())),
            tam - qf.len() + 1,
            min,
            n,
        ),
    decreases qf.len(),
{
    if qf.len() == 0 {
        let st: (Seq<u16>, Seq<u16>) = (zeros(n), Seq::empty());
        assert forall|x: u16| x < n && #[trigger] st.0[x as int] > 0 implies st.1.contains(x) by {
        }
    } else {
        let q0 = qf.drop_last();
        lema_acumular_valido(b, q0, tam, min, n);
        let r = (tam - (qf.len() - 1)) as u16;
        let ds = lista(b, qf.last().0);
        assert forall|i: int| 0 <= i < ds.len() implies #[trigger] ds[i] < n by {
            assert(b[qf.last().0][i] < n);
        }
        lema_passo_lista_valido(
            acumular_modelo(b, q0, tam, min, (zeros(n), Seq::empty())),
            ds,
            r,
            min,
            n,
        );
    }
}

proof fn lema_saida_distinta(ativos: Seq<u16>, cont: Seq<u16>, min: u16, docs: Seq<u32>)
    requires
        ativos.no_duplicates(),
        docs.no_duplicates(),
        forall|k: int| 0 <= k < ativos.len() ==> #[trigger] ativos[k] < docs.len(),
    ensures
        saida_modelo(ativos, cont, min, docs).no_duplicates(),
        forall|i: int|
            0 <= i < saida_modelo(ativos, cont, min, docs).len() ==> exists|k: int|
                0 <= k < ativos.len() && #[trigger] saida_modelo(ativos, cont, min, docs)[i]
                    == docs[ativos[k] as int],
    decreases ativos.len(),
{
    if ativos.len() > 0 {
        let a1 = ativos.drop_first();
        assert forall|k: int| 0 <= k < a1.len() implies #[trigger] a1[k] < docs.len() by {
            assert(a1[k] == ativos[k + 1]);
        }
        lema_saida_distinta(a1, cont, min, docs);
        let r = saida_modelo(a1, cont, min, docs);
        let out = saida_modelo(ativos, cont, min, docs);
        if cont[ativos[0] as int] >= min {
            assert(out == seq![docs[ativos[0] as int]] + r);
            assert forall|i: int| 0 <= i < r.len() implies r[i] != docs[ativos[0] as int] by {
                let k = choose|k: int| 0 <= k < a1.len() && r[i] == docs[a1[k] as int];
                assert(a1[k] == ativos[k + 1]);
                assert(ativos[k + 1] != ativos[0]);
            }
            assert forall|i: int, j: int| 0 <= i < j < out.len() implies out[i] != out[j] by {
                if i == 0 {
                    assert(out[j] == r[j - 1]);
                } else {
                    assert(out[i] == r[i - 1]);
                    assert(out[j] == r[j - 1]);
                }
            }
            assert forall|i: int| 0 <= i < out.len() implies exists|k: int|
                0 <= k < ativos.len() && #[trigger] out[i] == docs[ativos[k] as int] by {
                if i == 0 {
                    assert(out[0] == docs[ativos[0] as int]);
                } else {
                    let k = choose|k: int| 0 <= k < a1.len() && r[i - 1] == docs[a1[k] as int];
                    assert(out[i] == r[i - 1]);
                    assert(a1[k] == ativos[k + 1]);
                }
            }
        } else {
            assert forall|i: int| 0 <= i < out.len() implies exists|k: int|
                0 <= k < ativos.len() && #[trigger] out[i] == docs[ativos[k] as int] by {
                let k = choose|k: int| 0 <= k < a1.len() && r[i] == docs[a1[k] as int];
                assert(a1[k] == ativos[k + 1]);
            }
        }
    }
}

proof fn lema_filtrar_tamanho(b: Map<u16, Seq<u16>>, q: Seq<u16>, max_freq: u16)
    ensures
        filtrar_modelo(b, q, max_freq).len() <= q.len(),
    decreases q.len(),
{
    if q.len() > 0 {
        lema_filtrar_tamanho(b, q.drop_last(), max_freq);
    }
}

/// A busca devolve cada documento no máximo uma vez, e só documentos do
/// índice (quando o índice não repete documentos e as suas listas só citam
/// documentos existentes).
pub proof fn lei_buscar_sem_repeticao(
    b: Map<u16, Seq<u16>>,
    docs: Seq<u32>,
    q: Seq<u16>,
    sobreposicao_min: Option<Proporcao>,
    max_df: Option<Proporcao>,
)
    requires
        docs.no_duplicates(),
        q.len() <= u16::MAX,
        forall|t: u16, i: int|
            #![trigger b[t][i]]
            b.contains_key(t) && 0 <= i < b[t].len() ==> b[t][i] < docs.len(),
    ensures
        buscar_modelo(b, docs, q, sobreposicao_min, max_df).no_duplicates(),
        forall|i: int|
            0 <= i < buscar_modelo(b, docs, q, sobreposicao_min, max_df).len() ==> docs.contains(
                #[trigger] buscar_modelo(b, docs, q, sobreposicao_min, max_df)[i],
            ),
{
    if q.len() > 0 {
        let qf = preparar_modelo(b, q, max_freq_modelo(docs.len(), max_df));
        lema_filtrar_tamanho(b, q, max_freq_modelo(docs.len(), max_df));
        lema_ordenar_tamanho(filtrar_modelo(b, q, max_freq_modelo(docs.len(), max_df)));
        lema_ordenar_tamanho(com_freq_modelo(b, q));
        assert(qf.len() <= q.len());
        let min = min_overlap_modelo(q.len(), qf.len(), sobreposicao_min);
        lema_acumular_valido(b, qf, q.len() as u16, min, docs.len());
        let st = acumular_modelo(b, qf, q.len() as u16, min, (zeros(docs.len()), Seq::empty()));
        lema_saida_distinta(st.1, st.0, min, docs);
        let out = saida_modelo(st.1, st.0, min, docs);
        assert forall|i: int| 0 <= i < out.len() implies docs.contains(#[trigger] out[i]) by {
            let k = choose|k: int| 0 <= k < st.1.len() && out[i] == docs[st.1[k] as int];
        }
    }
}

/// Depois de `finalizar`, os documentos são exatamente os documentos que
/// tinham id interno: nenhum registrado se perde.
pub proof fn lei_docs_finais_completos(ids: Map<u32, u16>, docs: Seq<u32>)
    requires
        docs_finais(ids, docs),
        ids.dom().finite(),
    ensures
        forall|d: u32| ids.contains_key(d) <==> #[trigger] docs.contains(d),
{
    docs.unique_seq_to_set();
    assert(docs.to_set().subset_of(ids.dom())) by {
        assert forall|d: u32| docs.to_set().contains(d) implies ids.dom().contains(d) by {
            let k = choose|k: int| 0 <= k < docs.len() && docs[k] == d;
        }
    }
    vstd::set_lib::lemma_subset_equality(docs.to_set(), ids.dom());
    assert forall|d: u32| ids.contains_key(d) <==> #[trigger] docs.contains(d) by {
        assert(docs.to_set().contains(d) <==> docs.contains(d));
    }
}

proof fn lema_valor_abaixo(ids: Map<u32, u16>, docs: Seq<u32>, i: int)
    requires
        0 <= i < docs.len(),
        forall|a: int, b: int| 0 <= a < b < docs.len() ==> ids[docs[a]] < ids[docs[b]],
    ensures
        ids[docs[i]] >= i,
    decreases i,
{
    if i > 0 {
        lema_valor_abaixo(ids, docs, i - 1);
    }
}

proof fn lema_valor_acima(ids: Map<u32, u16>, docs: Seq<u32>, i: int)
    requires
        0 <= i < docs.len(),
        forall|a: int, b: int| 0 <= a < b < docs.len() ==> ids[docs[a]] < ids[docs[b]],
        forall|a: int| 0 <= a < docs.len() ==> ids[#[trigger] docs[a]] < docs.len(),
    ensures
        ids[docs[i]] <= i,
    decreases docs.len() - i,
{
    if i + 1 < docs.len() {
        lema_valor_acima(ids, docs, i + 1);
    }
}

/// Quando os ids internos são exatamente `0..n` (como `add` os dá), depois
/// de `finalizar` o documento de id interno `i` está na posição `i`.
pub proof fn lei_docs_finais_por_id(ids: Map<u32, u16>, docs: Seq<u32>)
    requires
        docs_finais(ids, docs),
        ids.dom().finite(),
        forall|d: u32| #[trigger] ids.contains_key(d) ==> ids[d] < ids.dom().len(),
        forall|d1: u32, d2: u32|
            #[trigger] ids.contains_key(d1) && #[trigger] ids.contains_key(d2) && d1 != d2 ==> ids[d1]
                != ids[d2],
    ensures
        forall|d: u32| #[trigger] ids.contains_key(d) ==> docs[ids[d] as int] == d,
{
    lei_docs_finais_completos(ids, docs);
    assert forall|a: int, b: int| 0 <= a < b < docs.len() implies ids[docs[a]] < ids[docs[b]] by {
        assert(ids.contains_key(docs[a]) && ids.contains_key(docs[b]));
        assert(docs[a] != docs[b]);
    }
    assert forall|a: int| 0 <= a < docs.len() implies ids[#[trigger] docs[a]] < docs.len() by {
        assert(ids.contains_key(docs[a]));
    }
    assert forall|d: u32| #[trigger] ids.contains_key(d) implies docs[ids[d] as int] == d by {
        assert(docs.contains(d));
        let k = choose|k: int| 0 <= k < docs.len() && docs[k] == d;
        lema_valor_abaixo(ids, docs, k);
        lema_valor_acima(ids, docs, k);
    }
}

/// Com listas de tokens sem ids repetidos, a acumulação deixa ativo e com
/// contagem de pelo menos `min` exatamente o documento que está nas listas
/// de pelo menos um e de pelo menos `min` tokens da query final; a sua
/// contagem é então esse número de tokens (limitado a `u16::MAX`). Nenhum
/// documento fica ativo duas vezes. Vale para todo documento `d < n`.
pub proof fn lei_acumular_contagens(
    b: Map<u16, Seq<u16>>,
    qf: Seq<(u16, u16)>,
    tam: u16,
    min: u16,
    n: nat,
    d: u16,
)
    requires
        qf.len() <= tam,
        d < n,
        forall|t: u16| #[trigger] b.contains_key(t) ==> b[t].no_duplicates(),
        forall|t: u16, i: int|
            #![trigger b[t][i]]
            b.contains_key(t) && 0 <= i < b[t].len() ==> b[t][i] < n,
    ensures
        ({
            let st = acumular_modelo(b, qf, tam, min, (zeros(n), Seq::empty()));
            let c = posicoes_com(b, qf, d);
            &&& st.0.len() == n
            &&& st.1.no_duplicates()
            &&& (st.1.contains(d) && st.0[d as int] >= min) <==> (c >= 1 && c >= min)
            &&& (st.1.contains(d) && st.0[d as int] >= min) ==> st.0[d as int] == saturado(c as int)
        }),
{
    lema_acumular_valido(b, qf, tam, min, n);
    lema_acumular_limite(b, qf, tam, min, n);
    lema_acumular_encontra(b, qf, tam, min, n, d, tam as int);
}

/// Em quantas posições da query final a lista do token contém o documento `d`.
pub open spec fn posicoes_com(b: Map<u16, Seq<u16>>, qf: Seq<(u16, u16)>, d: u16) -> nat
    decreases qf.len(),
{
    if qf.len() == 0 {
        0
    } else {
        posicoes_com(b, qf.drop_last(), d) + if lista(b, qf.last().0).contains(d) {
            1nat
        } else {
            0nat
        }
    }
}

/// O documento `d` (id interno) está nas listas de pelo menos um e de pelo
/// menos o mínimo de tokens da query final.
pub open spec fn alcanca_minimo(
    b: Map<u16, Seq<u16>>,
    total_docs: nat,
    q: Seq<u16>,
    sobreposicao_min: Option<Proporcao>,
    max_df: Option<Proporcao>,
    d: u16,
) -> bool {
    let qf = preparar_modelo(b, q, max_freq_modelo(total_docs, max_df));
    let min = min_overlap_modelo(q.len(), qf.len(), sobreposicao_min);
    &&& posicoes_com(b, qf, d) >= 1
    &&& posicoes_com(b, qf, d) >= min
}

/// `min(x, u16::MAX)` sobre inteiros.
pub open spec fn saturado(x: int) -> int {
    if x < u16::MAX {
        x
    } else {
        u16::MAX as int
    }
}

proof fn lema_passo_outro(st: (Seq<u16>, Seq<u16>), x: u16, r: u16, min: u16, d: u16)
    requires
        x != d,
        d < st.0.len(),
        x < st.0.len(),
    ensures
        passo_modelo(st, x, r, min).0.len() == st.0.len(),
        passo_modelo(st, x, r, min).0[d as int] == st.0[d as int],
        forall|y: u16| st.1.contains(y) ==> #[trigger] passo_modelo(st, x, r, min).1.contains(y),
{
    let st1 = passo_modelo(st, x, r, min);
    assert forall|y: u16| st.1.contains(y) implies #[trigger] st1.1.contains(y) by {
        let k = choose|k: int| 0 <= k < st.1.len() && st.1[k] == y;
        assert(st1.1[k] == y);
    }
}

proof fn lema_lista_sem(st: (Seq<u16>, Seq<u16>), ds: Seq<u16>, r: u16, min: u16, d: u16)
    requires
        !ds.contains(d),
        d < st.0.len(),
        forall|i: int| 0 <= i < ds.len() ==> #[trigger] ds[i] < st.0.len(),
    ensures
        passo_lista_modelo(st, ds, r, min).0.len() == st.0.len(),
        passo_lista_modelo(st, ds, r, min).0[d as int] == st.0[d as int],
        forall|y: u16| st.1.contains(y) ==> #[trigger] passo_lista_modelo(st, ds, r, min).1.contains(y),
    decreases ds.len(),
{
    if ds.len() > 0 {
        let d0 = ds.drop_last();
        assert(!d0.contains(d)) by {
            if d0.contains(d) {
                let k = choose|k: int| 0 <= k < d0.len() && d0[k] == d;
                assert(ds[k] == d);
            }
        }
        assert forall|i: int| 0 <= i < d0.len() implies #[trigger] d0[i] < st.0.len() by {
            assert(d0[i] == ds[i]);
        }
        lema_lista_sem(st, d0, r, min, d);
        let st0 = passo_lista_modelo(st, d0, r, min);
        assert(ds.last() != d) by {
            assert(ds[ds.len() - 1] == ds.last());
        }
        lema_passo_outro(st0, ds.last(), r, min, d);
    }
}

proof fn lema_lista_com(st: (Seq<u16>, Seq<u16>), ds: Seq<u16>, r: u16, min: u16, d: u16)
    requires
        ds.contains(d),
        d < st.0.len(),
        forall|i: int| 0 <= i < ds.len() ==> #[trigger] ds[i] < st.0.len(),
        st.0[d as int] >= 1 ==> st.1.contains(d),
        (st.0[d as int] == 0 && r >= min) || (st.0[d as int] >= 1 && st.0[d as int] + r >= min),
    ensures
        passo_lista_modelo(st, ds, r, min).0.len() == st.0.len(),
        passo_lista_modelo(st, ds, r, min).0[d as int] >= saturado(st.0[d as int] + 1),
        passo_lista_modelo(st, ds, r, min).1.contains(d),
    decreases ds.len(),
{
    let d0 = ds.drop_last();
    let x = ds.last();
    assert(x == ds[ds.len() - 1]);
    assert forall|i: int| 0 <= i < d0.len() implies #[trigger] d0[i] < st.0.len() by {
        assert(d0[i] == ds[i]);
    }
    if d0.contains(d) {
        lema_lista_com(st, d0, r, min, d);
        let st0 = passo_lista_modelo(st, d0, r, min);
        if x != d {
            lema_passo_outro(st0, x, r, min, d);
        } else {
            let st1 = passo_modelo(st0, x, r, min);
            let k = choose|k: int| 0 <= k < st0.1.len() && st0.1[k] == d;
            assert(st1.1[k] == d);
        }
    } else {
        assert(x == d) by {
            let k = choose|k: int| 0 <= k < ds.len() && ds[k] == d;
            if k < ds.len() - 1 {
                assert(d0[k] == d);
            }
        }
        lema_lista_sem(st, d0, r, min, d);
        let st0 = passo_lista_modelo(st, d0, r, min);
        let st1 = passo_modelo(st0, d, r, min);
        if st.0[d as int] == 0 {
            assert(st1.1[st0.1.len() as int] == d);
        } else {
            assert(st0.1.contains(d));
            let k = choose|k: int| 0 <= k < st0.1.len() && st0.1[k] == d;
            assert(st1.1[k] == d);
        }
    }
}

proof fn lema_acumular_encontra(
    b: Map<u16, Seq<u16>>,
    qf: Seq<(u16, u16)>,
    tam: u16,
    min: u16,
    n: nat,
    d: u16,
    total: int,
)
    requires
        qf.len() <= total <= tam,
        d < n,
        forall|t: u16, i: int|
            #![trigger b[t][i]]
            b.contains_key(t) && 0 <= i < b[t].len() ==> b[t][i] < n,
    ensures
        ({
            let st = acumular_modelo(b, qf, tam, min, (zeros(n), Seq::empty()));
            let pc = posicoes_com(b, qf, d);
            &&& st.0.len() == n
            &&& pc == 0 ==> st.0[d as int] == 0
            &&& (pc >= 1 && pc + total - qf.len() >= min) ==> st.0[d as int] >= saturado(pc as int)
                && st.1.contains(d)
        }),
    decreases qf.len(),
{
    if qf.len() > 0 {
        let q0 = qf.drop_last();
        let k = q0.len();
        lema_acumular_encontra(b, q0, tam, min, n, d, total);
        lema_acumular_valido(b, q0, tam, min, n);
        let st0 = acumular_modelo(b, q0, tam, min, (zeros(n), Seq::empty()));
        let r = (tam - k) as u16;
        let ds = lista(b, qf.last().0);
        assert forall|i: int| 0 <= i < ds.len() implies #[trigger] ds[i] < st0.0.len() by {
            assert(b[qf.last().0][i] < n);
        }
        let pc0 = posicoes_com(b, q0, d);
        assert(st0.0[d as int] > 0 ==> st0.1.contains(d));
        if !ds.contains(d) {
            lema_lista_sem(st0, ds, r, min, d);
        } else {
            let pc = pc0 + 1;
            if pc + total - qf.len() >= min {
                if pc0 == 0 {
                    lema_lista_com(st0, ds, r, min, d);
                } else {
                    lema_lista_com(st0, ds, r, min, d);
                }
            } else {
                lema_passo_lista_valido(st0, ds, r, min, n);
            }
        }
    }
}

proof fn lema_saida_contem(ativos: Seq<u16>, cont: Seq<u16>, min: u16, docs: Seq<u32>, d: u16)
    requires
        ativos.contains(d),
        cont[d as int] >= min,
    ensures
        saida_modelo(ativos, cont, min, docs).contains(docs[d as int]),
    decreases ativos.len(),
{
    let r = saida_modelo(ativos.drop_first(), cont, min, docs);
    if ativos[0] == d {
        assert(saida_modelo(ativos, cont, min, docs)[0] == docs[d as int]);
    } else {
        let k = choose|k: int| 0 <= k < ativos.len() && ativos[k] == d;
        assert(ativos.drop_first()[k - 1] == d);
        lema_saida_contem(ativos.drop_first(), cont, min, docs, d);
        let j = choose|j: int| 0 <= j < r.len() && r[j] == docs[d as int];
        if cont[ativos[0] as int] >= min {
            assert(saida_modelo(ativos, cont, min, docs)[j + 1] == docs[d as int]);
        } else {
            assert(saida_modelo(ativos, cont, min, docs)[j] == docs[d as int]);
        }
    }
}

/// A busca encontra todo documento que está nas listas de pelo menos o
/// mínimo de tokens da query final (e de pelo menos um).
pub proof fn lei_buscar_encontra(
    b: Map<u16, Seq<u16>>,
    docs: Seq<u32>,
    q: Seq<u16>,
    sobreposicao_min: Option<Proporcao>,
    max_df: Option<Proporcao>,
    d: u16,
)
    requires
        q.len() <= u16::MAX,
        d < docs.len(),
        forall|t: u16, i: int|
            #![trigger b[t][i]]
            b.contains_key(t) && 0 <= i < b[t].len() ==> b[t][i] < docs.len(),
        alcanca_minimo(b, docs.len(), q, sobreposicao_min, max_df, d),
    ensures
        buscar_modelo(b, docs, q, sobreposicao_min, max_df).contains(docs[d as int]),
{
    let qf = preparar_modelo(b, q, max_freq_modelo(docs.len(), max_df));
    lema_filtrar_tamanho(b, q, max_freq_modelo(docs.len(), max_df));
    lema_ordenar_tamanho(filtrar_modelo(b, q, max_freq_modelo(docs.len(), max_df)));
    lema_ordenar_tamanho(com_freq_modelo(b, q));
    assert(qf.len() <= q.len());
    if q.len() == 0 {
        assert(qf.len() == 0);
        assert(posicoes_com(b, qf, d) == 0);
    } else {
        let min = min_overlap_modelo(q.len(), qf.len(), sobreposicao_min);
        lema_acumular_encontra(b, qf, q.len() as u16, min, docs.len(), d, qf.len() as int);
        let st = acumular_modelo(b, qf, q.len() as u16, min, (zeros(docs.len()), Seq::empty()));
        assert(st.0[d as int] >= min);
        lema_saida_contem(st.1, st.0, min, docs, d);
    }
}

/// Pares em ordem não decrescente de frequência (segunda componente).
pub open spec fn ordenada_por_freq(s: Seq<(u16, u16)>) -> bool {
    forall|i: int, j: int| 0 <= i <= j < s.len() ==> s[i].1 <= s[j].1
}

proof fn lema_inserir_permuta_e_ordena(s: Seq<(u16, u16)>, x: (u16, u16))
    ensures
        inserir_por_freq(s, x).to_multiset() == s.to_multiset().insert(x),
        ordenada_por_freq(s) ==> ordenada_por_freq(inserir_por_freq(s, x)),
    decreases s.len(),
{
    broadcast use vstd::multiset::group_multiset_axioms;
    if s.len() == 0 {
        assert(seq![x].to_multiset() =~= vstd::multiset::Multiset::empty().insert(x)) by {
            assert(seq![x] =~= Seq::<(u16, u16)>::empty().push(x));
        }
        assert(s.to_multiset() =~= vstd::multiset::Multiset::empty());
    } else if s.last().1 <= x.1 {
        s.to_multiset_ensures();
    } else {
        let s0 = s.drop_last();
        let l = s.last();
        lema_inserir_permuta_e_ordena(s0, x);
        let i0 = inserir_por_freq(s0, x);
        i0.to_multiset_ensures();
        s.to_multiset_ensures();
        assert(s0.push(l) =~= s);
        s0.to_multiset_ensures();
        assert(inserir_por_freq(s, x).to_multiset() =~= s.to_multiset().insert(x));
        if ordenada_por_freq(s) {
            assert(ordenada_por_freq(s0));
            assert forall|i: int| 0 <= i < i0.len() implies #[trigger] i0[i].1 <= l.1 by {
                let y = i0[i];
                assert(i0.to_multiset().count(y) > 0);
                assert(s0.to_multiset().insert(x).count(y) > 0);
                if y != x {
                    assert(s0.to_multiset().count(y) > 0);
                    assert(s0.contains(y));
                    let k = choose|k: int| 0 <= k < s0.len() && s0[k] == y;
                    assert(s[k] == y);
                    assert(s[k].1 <= s[s.len() - 1].1);
                }
            }
            let r = inserir_por_freq(s, x);
            assert forall|i: int, j: int| 0 <= i <= j < r.len() implies r[i].1 <= r[j].1 by {
                if j == r.len() - 1 && i < j {
                    assert(r[i] == i0[i]);
                } else if j < r.len() - 1 {
                    assert(r[i] == i0[i] && r[j] == i0[j]);
                }
            }
        }
    }
}

proof fn lema_lista_limite(st: (Seq<u16>, Seq<u16>), ds: Seq<u16>, r: u16, min: u16)
    requires
        ds.no_duplicates(),
        forall|i: int| 0 <= i < ds.len() ==> #[trigger] ds[i] < st.0.len(),
    ensures
        passo_lista_modelo(st, ds, r, min).0.len() == st.0.len(),
        forall|d: u16|
            d < st.0.len() ==> #[trigger] passo_lista_modelo(st, ds, r, min).0[d as int] <= st.0[d as int]
                + (if ds.contains(d) { 1int } else { 0int }),
        forall|y: u16|
            #[trigger] passo_lista_modelo(st, ds, r, min).1.contains(y) ==> st.1.contains(y)
                || ds.contains(y),
    decreases ds.len(),
{
    if ds.len() > 0 {
        let d0 = ds.drop_last();
        let x = ds.last();
        assert forall|i: int| 0 <= i < d0.len() implies #[trigger] d0[i] < st.0.len() by {
            assert(d0[i] == ds[i]);
        }
        assert(d0.no_duplicates()) by {
            assert forall|i: int, j: int| 0 <= i < j < d0.len() implies d0[i] != d0[j] by {
                assert(d0[i] == ds[i] && d0[j] == ds[j]);
            }
        }
        lema_lista_limite(st, d0, r, min);
        let sp = passo_lista_modelo(st, d0, r, min);
        let s1 = passo_modelo(sp, x, r, min);
        assert(!d0.contains(x)) by {
            if d0.contains(x) {
                let k = choose|k: int| 0 <= k < d0.len() && d0[k] == x;
                assert(ds[k] == ds[ds.len() - 1]);
            }
        }
        assert forall|d: u16| d < st.0.len() implies #[trigger] s1.0[d as int] <= st.0[d as int]
            + (if ds.contains(d) { 1int } else { 0int }) by {
            if d0.contains(d) {
                let k = choose|k: int| 0 <= k < d0.len() && d0[k] == d;
                assert(ds[k] == d);
            }
            if d == x {
                assert(ds[ds.len() - 1] == d);
            }
        }
        assert forall|y: u16| #[trigger] s1.1.contains(y) implies st.1.contains(y) || ds.contains(y) by {
            if !sp.1.contains(y) {
                if y == x {
                    assert(ds[ds.len() - 1] == y);
                } else {
                    let k = choose|k: int| 0 <= k < s1.1.len() && s1.1[k] == y;
                    if k < sp.1.len() {
                        assert(sp.1[k] == y);
                    }
                }
            } else if d0.contains(y) {
                let k = choose|k: int| 0 <= k < d0.len() && d0[k] == y;
                assert(ds[k] == y);
            }
        }
    }
}

proof fn lema_acumular_limite(b: Map<u16, Seq<u16>>, qf: Seq<(u16, u16)>, tam: u16, min: u16, n: nat)
    requires
        forall|t: u16| #[trigger] b.contains_key(t) ==> b[t].no_duplicates(),
        forall|t: u16, i: int|
            #![trigger b[t][i]]
            b.contains_key(t) && 0 <= i < b[t].len() ==> b[t][i] < n,
    ensures
        ({
            let st = acumular_modelo(b, qf, tam, min, (zeros(n), Seq::empty()));
            &&& st.0.len() == n
            &&& forall|d: u16| d < n ==> #[trigger] st.0[d as int] <= posicoes_com(b, qf, d)
            &&& forall|d: u16| #[trigger] st.1.contains(d) ==> posicoes_com(b, qf, d) >= 1
        }),
    decreases qf.len(),
{
    if qf.len() > 0 {
        let q0 = qf.drop_last();
        lema_acumular_limite(b, q0, tam, min, n);
        let st0 = acumular_modelo(b, q0, tam, min, (zeros(n), Seq::empty()));
        let r = (tam - (qf.len() - 1)) as u16;
        let ds = lista(b, qf.last().0);
        assert forall|i: int| 0 <= i < ds.len() implies #[trigger] ds[i] < st0.0.len() by {
            assert(b[qf.last().0][i] < n);
        }
        assert(ds.no_duplicates()) by {
            if !b.contains_key(qf.last().0) {
                assert(ds =~= Seq::<u16>::empty());
            }
        }
        lema_lista_limite(st0, ds, r, min);
    }
}

proof fn lema_saida_vem_de(ativos: Seq<u16>, cont: Seq<u16>, min: u16, docs: Seq<u32>, x: u32)
    requires
        saida_modelo(ativos, cont, min, docs).contains(x),
    ensures
        exists|k: int|
            0 <= k < ativos.len() && docs[ativos[k] as int] == x && cont[#[trigger] ativos[k] as int]
                >= min,
    decreases ativos.len(),
{
    let a1 = ativos.drop_first();
    let r = saida_modelo(a1, cont, min, docs);
    let out = saida_modelo(ativos, cont, min, docs);
    if cont[ativos[0] as int] >= min && docs[ativos[0] as int] == x {
        assert(ativos[0] == ativos[0]);
    } else {
        assert(r.contains(x)) by {
            let i = choose|i: int| 0 <= i < out.len() && out[i] == x;
            if cont[ativos[0] as int] >= min {
                assert(out == seq![docs[ativos[0] as int]] + r);
                assert(i > 0);
                assert(r[i - 1] == x);
            } else {
                assert(r[i] == x);
            }
        }
        lema_saida_vem_de(a1, cont, min, docs, x);
        let k = choose|k: int|
            0 <= k < a1.len() && docs[a1[k] as int] == x && cont[#[trigger] a1[k] as int] >= min;
        assert(a1[k] == ativos[k + 1]);
    }
}

/// Num índice que não repete documentos nem repete um id na lista de um
/// token, a busca devolve um documento exatamente quando ele está nas listas
/// de pelo menos um e de pelo menos o mínimo de tokens da query final.
pub proof fn lei_buscar_exata(
    b: Map<u16, Seq<u16>>,
    docs: Seq<u32>,
    q: Seq<u16>,
    sobreposicao_min: Option<Proporcao>,
    max_df: Option<Proporcao>,
    d: u16,
)
    requires
        docs.no_duplicates(),
        q.len() <= u16::MAX,
        d < docs.len(),
        forall|t: u16| #[trigger] b.contains_key(t) ==> b[t].no_duplicates(),
        forall|t: u16, i: int|
            #![trigger b[t][i]]
            b.contains_key(t) && 0 <= i < b[t].len() ==> b[t][i] < docs.len(),
    ensures
        buscar_modelo(b, docs, q, sobreposicao_min, max_df).contains(docs[d as int])
            <==> alcanca_minimo(b, docs.len(), q, sobreposicao_min, max_df, d),
{
    if alcanca_minimo(b, docs.len(), q, sobreposicao_min, max_df, d) {
        lei_buscar_encontra(b, docs, q, sobreposicao_min, max_df, d);
    }
    if buscar_modelo(b, docs, q, sobreposicao_min, max_df).contains(docs[d as int]) {
        let n = docs.len();
        let qf = preparar_modelo(b, q, max_freq_modelo(n, max_df));
        let min = min_overlap_modelo(q.len(), qf.len(), sobreposicao_min);
        let tam = q.len() as u16;
        let st = acumular_modelo(b, qf, tam, min, (zeros(n), Seq::empty()));
        lema_filtrar_tamanho(b, q, max_freq_modelo(n, max_df));
        lema_ordenar_tamanho(filtrar_modelo(b, q, max_freq_modelo(n, max_df)));
        lema_ordenar_tamanho(com_freq_modelo(b, q));
        assert(qf.len() <= q.len());
        lema_acumular_valido(b, qf, tam, min, n);
        lema_acumular_limite(b, qf, tam, min, n);
        lema_saida_vem_de(st.1, st.0, min, docs, docs[d as int]);
        let k = choose|k: int|
            0 <= k < st.1.len() && docs[st.1[k] as int] == docs[d as int] && st.0[#[trigger] st.1[k] as int]
                >= min;
        let e = st.1[k];
        assert(e < n);
        assert(e == d);
        assert(st.1.contains(d));
        assert(st.0[d as int] <= posicoes_com(b, qf, d));
    }
}

/// A ordenação estável pela frequência ordena e só reordena os pares.
pub proof fn lei_ordenar_por_freq(s: Seq<(u16, u16)>)
    ensures
        ordenada_por_freq(ordenar_por_freq(s)),
        ordenar_por_freq(s).to_multiset() == s.to_multiset(),
    decreases s.len(),
{
    broadcast use vstd::multiset::group_multiset_axioms;
    if s.len() > 0 {
        let s0 = s.drop_last();
        lei_ordenar_por_freq(s0);
        lema_inserir_permuta_e_ordena(ordenar_por_freq(s0), s.last());
        assert(s0.push(s.last()) =~= s);
        s0.to_multiset_ensures();
    } else {
        assert(s.to_multiset() =~= vstd::multiset::Multiset::empty());
    }
}

/// A query final está em ordem de frequência e tem os pares (token,
/// frequência) dos tokens pouco frequentes da query, ou de todos quando
/// sobram menos de 3.
pub proof fn lei_query_final_ordenada(b: Map<u16, Seq<u16>>, q: Seq<u16>, max_freq: u16)
    ensures
        ordenada_por_freq(preparar_modelo(b, q, max_freq)),
        preparar_modelo(b, q, max_freq).to_multiset() == (if filtrar_modelo(b, q, max_freq).len() < 3 {
            com_freq_modelo(b, q)
        } else {
            filtrar_modelo(b, q, max_freq)
        }).to_multiset(),
{
    lei_ordenar_por_freq(filtrar_modelo(b, q, max_freq));
    lei_ordenar_por_freq(com_freq_modelo(b, q));
}

/// Com uma proporção de sobreposição, o mínimo de tokens em comum é pelo
/// menos 1 (a busca nunca vira uma varredura de todos os documentos); sem
/// ela, é 0.
pub proof fn lei_min_overlap_ao_menos_um(tam_query: nat, tam_final: nat, p: Option<Proporcao>)
    requires
        tam_final <= tam_query,
    ensures
        p is Some ==> min_overlap_modelo(tam_query, tam_final, p) >= 1,
        p is None ==> min_overlap_modelo(tam_query, tam_final, p) == 0,
{
    if let Some(x) = p {
        let num = x.por_milhao * tam_query - (tam_query - tam_final) * 1_000_000;
        if num > 0 {
            assert(teto_milionesimos(num) >= 1);
        }
    }
}

} // verus!
