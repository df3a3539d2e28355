//! Índice de logradouros por município, com filtros por CEP e localidade,
//! e a busca do logradouro mais parecido.
use rustc_hash::FxHashMap;
use vstd::prelude::*;
use vstd::pervasive::VecAdditionalExecFns;
use vstd::string::StringSliceAdditionalSpecFns;

use crate::busca_fuzzy::indice_invertido::{
    acrescentar, buscar_modelo, docs_finais, id_modelo, lei_docs_finais_completos, listas_finais,
    Doc, InvertedIndex, Proporcao,
};
use crate::busca_fuzzy::mapas::{
    conteudo_par_u32, conteudo_u16_lista, conteudo_u32_lista, conteudo_u32_u16, par_u32_encolher,
    par_u32_chaves, par_u32_inserir, par_u32_novo, par_u32_obter, u16_lista_chaves,
    u16_lista_inserir, u16_lista_novo, u16_lista_obter, u32_lista_chaves, u32_lista_inserir,
    u32_lista_novo, u32_lista_obter, u32_lista_remover, u32_u16_entradas, u32_u16_inserir,
    u32_u16_novo,
};
use crate::busca_fuzzy::ordenacao::ordenar_u32;
use crate::busca_fuzzy::padronizacao::{
    cep_modelo, cep_para_numero, padronizar_bairros, padronizar_estados_para_sigla,
    padronizar_logradouros, padronizar_modelo, padronizar_municipios, sigla_modelo,
};
use crate::busca_fuzzy::string_pool::{
    indice_completo, partes_validas, push_modelo, textos_de_partes, StringPool,
};
use crate::busca_fuzzy::tokenizer::{
    janelas_em_fronteira, mapa_de_tokens, ngramas, ngramas_cabem, tokens_conhecidos,
    tokens_indexados, NgramTokenizer,
};
use crate::busca_fuzzy::utils::{
    contem_ordenado, dedup_ordenado, estritamente_crescente, intersecao, intersect_sorted,
    lema_intersecao_contida, lema_intersecao_ordenada, lema_mapa_de_entradas, mapa_de, ordenada,
};
use vstd::utf8::{encode_utf8, is_ascii_chars};

verus! {

broadcast use vstd::seq_lib::group_to_multiset_ensures;

/// A lista de uma chave, ou a lista vazia.
pub open spec fn lista_u32(m: Map<u32, Seq<u32>>, k: u32) -> Seq<u32> {
    if m.contains_key(k) {
        m[k]
    } else {
        Seq::empty()
    }
}

/// Acrescenta `d` ao fim da lista da chave `k`.
pub open spec fn add_lista(m: Map<u32, Seq<u32>>, k: u32, d: u32) -> Map<u32, Seq<u32>> {
    m.insert(k, lista_u32(m, k).push(d))
}

/// Depois de `finalizar`: mesmas chaves, e cada lista em ordem estritamente
/// crescente com os mesmos elementos.
pub open spec fn listas_u32_finais(antes: Map<u32, Seq<u32>>, depois: Map<u32, Seq<u32>>) -> bool {
    &&& depois.dom() == antes.dom()
    &&& forall|k: u32|
        #[trigger] depois.contains_key(k) ==> estritamente_crescente(depois[k]) && forall|x: u32|
            depois[k].contains(x) <==> antes[k].contains(x)
}

/// O conteúdo do índice de um município.
pub struct ModeloIndice {
    pub ceps: Map<u32, Seq<u32>>,
    pub localidades: Map<u32, Seq<u32>>,
    pub baldes: Map<u16, Seq<u16>>,
    pub ids: Map<u32, u16>,
    pub docs: Seq<u32>,
}

/// Índice de um município vazio.
pub open spec fn modelo_vazio() -> ModeloIndice {
    ModeloIndice {
        ceps: Map::empty(),
        localidades: Map::empty(),
        baldes: Map::empty(),
        ids: Map::empty(),
        docs: Seq::empty(),
    }
}

/// O índice de um município depois de registrar o logradouro `doc`, com os
/// seus tokens e, se houver, a sua localidade e o seu CEP.
pub open spec fn modelo_apos_add(
    m: ModeloIndice,
    tokens: Seq<u16>,
    doc: u32,
    loc: Option<u32>,
    cep: Option<u32>,
) -> ModeloIndice {
    let (ids, d) = id_modelo(m.ids, doc);
    ModeloIndice {
        ceps: match cep {
            Some(c) => add_lista(m.ceps, c, doc),
            None => m.ceps,
        },
        localidades: match loc {
            Some(l) => add_lista(m.localidades, l, doc),
            None => m.localidades,
        },
        baldes: acrescentar(m.baldes, tokens, d),
        ids,
        docs: m.docs,
    }
}

/// Todo logradouro das listas por CEP e por localidade tem id interno.
pub open spec fn listas_registradas(m: ModeloIndice) -> bool {
    &&& forall|c: u32, j: int|
        #![trigger m.ceps[c][j]]
        m.ceps.contains_key(c) && 0 <= j < m.ceps[c].len() ==> m.ids.contains_key(m.ceps[c][j])
    &&& forall|c: u32, j: int|
        #![trigger m.localidades[c][j]]
        m.localidades.contains_key(c) && 0 <= j < m.localidades[c].len() ==> m.ids.contains_key(
            m.localidades[c][j],
        )
}

/// Todo logradouro das listas por CEP e por localidade está nos documentos
/// do índice invertido.
pub open spec fn listas_indexadas(m: ModeloIndice) -> bool {
    &&& forall|c: u32, j: int|
        #![trigger m.ceps[c][j]]
        m.ceps.contains_key(c) && 0 <= j < m.ceps[c].len() ==> m.docs.contains(m.ceps[c][j])
    &&& forall|c: u32, j: int|
        #![trigger m.localidades[c][j]]
        m.localidades.contains_key(c) && 0 <= j < m.localidades[c].len() ==> m.docs.contains(
            m.localidades[c][j],
        )
}

/// Todo logradouro citado no índice é menor que `n`.
pub open spec fn docs_validos(m: ModeloIndice, n: nat) -> bool {
    &&& forall|d: u32| #[trigger] m.ids.contains_key(d) ==> d < n
    &&& forall|i: int| 0 <= i < m.docs.len() ==> #[trigger] m.docs[i] < n
    &&& forall|c: u32, j: int|
        #![trigger m.ceps[c][j]]
        m.ceps.contains_key(c) && 0 <= j < m.ceps[c].len() ==> m.ceps[c][j] < n
    &&& forall|c: u32, j: int|
        #![trigger m.localidades[c][j]]
        m.localidades.contains_key(c) && 0 <= j < m.localidades[c].len() ==> m.localidades[c][j]
            < n
}

/// O índice de um município: as listas de logradouros por CEP e por
/// localidade e o índice invertido dos seus logradouros.
#[derive(Clone)]
pub struct IndiceMunicipio {
    por_cep: FxHashMap<u32, Vec<Doc>>,
    por_localidade: FxHashMap<u32, Vec<Doc>>,
    idx_logradouro: InvertedIndex,
}

impl View for IndiceMunicipio {
    type V = ModeloIndice;

    closed spec fn view(&self) -> ModeloIndice {
        ModeloIndice {
            ceps: conteudo_u32_lista(self.por_cep),
            localidades: conteudo_u32_lista(self.por_localidade),
            baldes: self.idx_logradouro.baldes(),
            ids: self.idx_logradouro.ids(),
            docs: self.idx_logradouro.lista_docs(),
        }
    }
}

/// Acrescenta `d` à lista da chave `k`.
fn adicionar_em_lista(m: &mut FxHashMap<u32, Vec<u32>>, k: u32, d: u32)
    ensures
        conteudo_u32_lista(*final(m)) == add_lista(conteudo_u32_lista(*old(m)), k, d),
{
    let mut v = match u32_lista_remover(m, k) {
        Some(v) => v,
        None => Vec::new(),
    };
    v.push(d);
    u32_lista_inserir(m, k, v);
    assert(conteudo_u32_lista(*m) =~= add_lista(conteudo_u32_lista(*old(m)), k, d));
}

/// Ordena cada lista e tira os repetidos.
fn finalizar_listas(m: &mut FxHashMap<u32, Vec<u32>>)
    ensures
        listas_u32_finais(conteudo_u32_lista(*old(m)), conteudo_u32_lista(*final(m))),
{
    let ghost m0 = conteudo_u32_lista(*m);
    let chaves = u32_lista_chaves(m);
    let mut k: usize = 0;
    while k < chaves.len()
        invariant
            k <= chaves@.len(),
            chaves@.no_duplicates(),
            forall|t: u32| chaves@.contains(t) <==> m0.contains_key(t),
            conteudo_u32_lista(*m).dom() == m0.dom(),
            forall|t: u32|
                #[trigger] conteudo_u32_lista(*m).contains_key(t) ==> forall|x: u32|
                    conteudo_u32_lista(*m)[t].contains(x) <==> m0[t].contains(x),
            forall|j: int|
                0 <= j < k ==> estritamente_crescente(
                    conteudo_u32_lista(*m)[#[trigger] chaves@[j]],
                ),
        decreases chaves@.len() - k,
    {
        let t = chaves[k];
        assert(chaves@.contains(t));
        let ghost antes = conteudo_u32_lista(*m);
        match u32_lista_remover(m, t) {
            Some(mut v) => {
                let ghost v0 = v@;
                ordenar_u32(&mut v);
                let w = dedup_ordenado(&v);
                u32_lista_inserir(m, t, w);
                proof {
                    assert(conteudo_u32_lista(*m).dom() =~= antes.dom());
                    assert forall|x: u32| w@.contains(x) <==> v0.contains(x) by {
                        assert(v@.contains(x) <==> v@.to_multiset().count(x) > 0);
                        assert(v0.contains(x) <==> v0.to_multiset().count(x) > 0);
                    }
                    assert forall|j: int| 0 <= j < k + 1 implies estritamente_crescente(
                        conteudo_u32_lista(*m)[#[trigger] chaves@[j]],
                    ) by {
                        if j < k {
                            assert(chaves@[j] != t);
                        }
                    }
                }
            },
            None => {
                assert(false);
            },
        }
        k += 1;
    }
    proof {
        assert forall|t: u32| #[trigger] conteudo_u32_lista(*m).contains_key(t) implies estritamente_crescente(
            conteudo_u32_lista(*m)[t],
        ) by {
            assert(chaves@.contains(t));
            let j = choose|j: int| 0 <= j < chaves@.len() && chaves@[j] == t;
        }
    }
}

impl IndiceMunicipio {
    /// Boa formação: mapas finitos.
    pub closed spec fn wf(&self) -> bool {
        &&& conteudo_u32_lista(self.por_cep).dom().finite()
        &&& conteudo_u32_lista(self.por_localidade).dom().finite()
        &&& self.idx_logradouro.wf()
    }

    /// Os ids internos do índice invertido cobrem as suas listas (vale até o
    /// primeiro `finalizar`).
    pub closed spec fn pode_finalizar(&self) -> bool {
        &&& self.idx_logradouro.ids_cobrem_baldes()
        &&& listas_registradas(self@)
    }

    /// Pronto para a busca: o índice invertido indexa `docs` e as listas por
    /// CEP e por localidade estão ordenadas.
    pub closed spec fn pronto(&self) -> bool {
        &&& self.idx_logradouro.buscavel()
        &&& forall|c: u32|
            #[trigger] self@.ceps.contains_key(c) ==> ordenada(self@.ceps[c])
        &&& forall|c: u32|
            #[trigger] self@.localidades.contains_key(c) ==> ordenada(self@.localidades[c])
    }

    /// As listas de logradouros por CEP.
    pub fn por_cep(&self) -> (r: &FxHashMap<u32, Vec<Doc>>)
        ensures
            conteudo_u32_lista(*r) == self@.ceps,
    {
        &self.por_cep
    }

    /// As listas de logradouros por localidade.
    pub fn por_localidade(&self) -> (r: &FxHashMap<u32, Vec<Doc>>)
        ensures
            conteudo_u32_lista(*r) == self@.localidades,
    {
        &self.por_localidade
    }

    /// O índice invertido dos logradouros do município.
    pub fn idx_logradouro(&self) -> (r: &InvertedIndex)
        ensures
            r.baldes() == self@.baldes,
            r.ids() == self@.ids,
            r.lista_docs() == self@.docs,
    {
        &self.idx_logradouro
    }

    /// Monta o índice de um município a partir das suas partes, para
    /// logradouros de ids menores que `n`; `None` se as partes não formam um
    /// índice pronto para a busca.
    pub fn de_partes(p: &PartesMunicipio, n: usize) -> (r: Option<IndiceMunicipio>)
        ensures
            r is Some <==> partes_municipio_validas(*p, n as nat),
            r matches Some(m) ==> {
                &&& m.wf()
                &&& m.pronto()
                &&& m@ == modelo_de_partes(*p)
                &&& docs_validos(m@, n as nat)
            },
    {
        let por_cep = match montar_listas(&p.por_cep, n) {
            Some(m) => m,
            None => {
                return None;
            },
        };
        let por_localidade = match montar_listas(&p.por_localidade, n) {
            Some(m) => m,
            None => {
                return None;
            },
        };
        let buckets = match montar_baldes(&p.baldes, p.docs.len()) {
            Some(m) => m,
            None => {
                return None;
            },
        };
        let docs_to_id = match montar_ids(&p.ids, n) {
            Some(m) => m,
            None => {
                return None;
            },
        };
        let mut j: usize = 0;
        while j < p.docs.len()
            invariant
                j <= p.docs@.len(),
                forall|k: int| 0 <= k < j ==> #[trigger] p.docs@[k] < n,
            decreases p.docs@.len() - j,
        {
            if p.docs[j] as usize >= n {
                return None;
            }
            j += 1;
        }
        let docs = p.docs.clone();
        assert(docs@ =~= p.docs@);
        let m = IndiceMunicipio {
            por_cep,
            por_localidade,
            idx_logradouro: InvertedIndex::de_mapas(buckets, docs_to_id, docs),
        };
        proof {
            lema_listas_validas(p.por_cep@, n as nat);
            lema_listas_validas(p.por_localidade@, n as nat);
            lema_baldes_validos(p.baldes@, p.docs@.len());
            lema_ids_validos(p.ids@, n as nat);
            let b = m.idx_logradouro.baldes();
            assert forall|t: u16, i: int|
                b.contains_key(t) && 0 <= i < b[t].len() implies #[trigger] b[t][i] < p.docs@.len() by {
                assert(lista_interna_valida(b[t], p.docs@.len()));
            }
            let v = m@;
            assert forall|c: u32, k: int| v.ceps.contains_key(c) && 0 <= k < v.ceps[c].len() implies #[trigger] v.ceps[c][k] < n by {
                assert(lista_valida(v.ceps[c], n as nat));
            }
            assert forall|c: u32, k: int| v.localidades.contains_key(c) && 0 <= k < v.localidades[c].len() implies #[trigger] v.localidades[c][k] < n by {
                assert(lista_valida(v.localidades[c], n as nat));
            }
        }
        Some(m)
    }

    /// As partes do índice, em listas.
    pub fn partes(&self) -> (r: PartesMunicipio)
        requires
            self.wf(),
        ensures
            modelo_de_partes(r) == self@,
            forall|n: nat|
                self.pronto() && docs_validos(self@, n) ==> #[trigger] partes_municipio_validas(r, n),
    {
        let por_cep = entradas_listas_u32(&self.por_cep);
        let por_localidade = entradas_listas_u32(&self.por_localidade);
        let baldes = entradas_listas_u16(&self.idx_logradouro.buckets);
        let ids = entradas_ids(&self.idx_logradouro.docs_to_id);
        let docs = self.idx_logradouro.docs.clone();
        assert(docs@ =~= self@.docs);
        let r = PartesMunicipio { por_cep, por_localidade, baldes, ids, docs };
        proof {
            assert forall|n: nat| self.pronto() && docs_validos(self@, n) implies #[trigger] partes_municipio_validas(r, n) by {
                let v = self@;
                assert forall|i: int| 0 <= i < r.por_cep@.len() implies lista_valida(#[trigger] r.por_cep@[i].1@, n) by {
                    let c = r.por_cep@[i].0;
                    assert(v.ceps.contains_key(c));
                    assert forall|k: int| 0 <= k < v.ceps[c].len() implies #[trigger] v.ceps[c][k] < n by {
                    }
                }
                assert forall|i: int| 0 <= i < r.por_localidade@.len() implies lista_valida(#[trigger] r.por_localidade@[i].1@, n) by {
                    let c = r.por_localidade@[i].0;
                    assert(v.localidades.contains_key(c));
                    assert forall|k: int| 0 <= k < v.localidades[c].len() implies #[trigger] v.localidades[c][k] < n by {
                    }
                }
                assert forall|i: int| 0 <= i < r.baldes@.len() implies lista_interna_valida(#[trigger] r.baldes@[i].1@, r.docs@.len()) by {
                    let t = r.baldes@[i].0;
                    assert(v.baldes.contains_key(t));
                    assert forall|k: int| 0 <= k < v.baldes[t].len() implies #[trigger] v.baldes[t][k] < r.docs@.len() by {
                    }
                }
                assert forall|i: int| 0 <= i < r.ids@.len() implies #[trigger] r.ids@[i].0 < n by {
                    assert(v.ids.contains_key(r.ids@[i].0));
                }
            }
        }
        r
    }

    /// Um índice vazio.
    pub fn new() -> (r: Self)
        ensures
            r.wf(),
            r@ == modelo_vazio(),
            r.pode_finalizar(),
            r.pronto(),
    {
        IndiceMunicipio {
            por_cep: u32_lista_novo(),
            por_localidade: u32_lista_novo(),
            idx_logradouro: InvertedIndex::default(),
        }
    }
}

proof fn lema_registradas_apos_add(
    m: ModeloIndice,
    tokens: Seq<u16>,
    doc: u32,
    loc: Option<u32>,
    cep: Option<u32>,
)
    requires
        listas_registradas(m),
    ensures
        listas_registradas(modelo_apos_add(m, tokens, doc, loc, cep)),
{
    let r = modelo_apos_add(m, tokens, doc, loc, cep);
    assert(r.ids.contains_key(doc));
    assert forall|c: u32, j: int| r.ceps.contains_key(c) && 0 <= j < r.ceps[c].len() implies r.ids.contains_key(
        #[trigger] r.ceps[c][j],
    ) by {
        if cep == Some(c) && j < lista_u32(m.ceps, c).len() {
            assert(r.ceps[c][j] == m.ceps[c][j]);
        } else if cep != Some(c) {
            assert(r.ceps[c][j] == m.ceps[c][j]);
        }
    }
    assert forall|c: u32, j: int|
        r.localidades.contains_key(c) && 0 <= j < r.localidades[c].len() implies r.ids.contains_key(
        #[trigger] r.localidades[c][j],
    ) by {
        if loc == Some(c) && j < lista_u32(m.localidades, c).len() {
            assert(r.localidades[c][j] == m.localidades[c][j]);
        } else if loc != Some(c) {
            assert(r.localidades[c][j] == m.localidades[c][j]);
        }
    }
}

proof fn lema_indexadas_apos_finalizar(a: ModeloIndice, b: ModeloIndice)
    requires
        listas_registradas(a),
        listas_u32_finais(a.ceps, b.ceps),
        listas_u32_finais(a.localidades, b.localidades),
        docs_finais(a.ids, b.docs),
        a.ids.dom().finite(),
    ensures
        listas_indexadas(b),
{
    lei_docs_finais_completos(a.ids, b.docs);
    assert forall|c: u32, j: int| b.ceps.contains_key(c) && 0 <= j < b.ceps[c].len() implies b.docs.contains(
        #[trigger] b.ceps[c][j],
    ) by {
        let x = b.ceps[c][j];
        assert(b.ceps[c].contains(x));
        assert(a.ceps[c].contains(x));
        let w = choose|w: int| 0 <= w < a.ceps[c].len() && a.ceps[c][w] == x;
        assert(a.ids.contains_key(a.ceps[c][w]));
    }
    assert forall|c: u32, j: int|
        b.localidades.contains_key(c) && 0 <= j < b.localidades[c].len() implies b.docs.contains(
        #[trigger] b.localidades[c][j],
    ) by {
        let x = b.localidades[c][j];
        assert(b.localidades[c].contains(x));
        assert(a.localidades[c].contains(x));
        let w = choose|w: int| 0 <= w < a.localidades[c].len() && a.localidades[c][w] == x;
        assert(a.ids.contains_key(a.localidades[c][w]));
    }
}

proof fn lema_docs_validos_vazio(n: nat)
    ensures
        docs_validos(modelo_vazio(), n),
{
}

proof fn lema_docs_validos_mono(m: ModeloIndice, n0: nat, n1: nat)
    requires
        docs_validos(m, n0),
        n0 <= n1,
    ensures
        docs_validos(m, n1),
{
}

proof fn lema_docs_validos_apos_add(
    m: ModeloIndice,
    tokens: Seq<u16>,
    doc: u32,
    loc: Option<u32>,
    cep: Option<u32>,
    n0: nat,
    n1: nat,
)
    requires
        docs_validos(m, n0),
        n0 <= n1,
        doc < n1,
    ensures
        docs_validos(modelo_apos_add(m, tokens, doc, loc, cep), n1),
{
    let r = modelo_apos_add(m, tokens, doc, loc, cep);
    assert forall|c: u32, j: int| r.ceps.contains_key(c) && 0 <= j < r.ceps[c].len() implies #[trigger] r.ceps[c][j] < n1 by {
        if cep == Some(c) && j == lista_u32(m.ceps, c).len() {
        } else if cep == Some(c) {
            assert(r.ceps[c][j] == lista_u32(m.ceps, c)[j]);
            assert(m.ceps.contains_key(c));
            assert(m.ceps[c][j] < n0);
        } else {
            assert(m.ceps[c][j] < n0);
        }
    }
    assert forall|c: u32, j: int| r.localidades.contains_key(c) && 0 <= j < r.localidades[c].len() implies #[trigger] r.localidades[c][j] < n1 by {
        if loc == Some(c) && j == lista_u32(m.localidades, c).len() {
        } else if loc == Some(c) {
            assert(r.localidades[c][j] == lista_u32(m.localidades, c)[j]);
            assert(m.localidades.contains_key(c));
            assert(m.localidades[c][j] < n0);
        } else {
            assert(m.localidades[c][j] < n0);
        }
    }
    assert forall|d: u32| #[trigger] r.ids.contains_key(d) implies d < n1 by {
        if d != doc {
            assert(m.ids.contains_key(d));
        }
    }
}

proof fn lema_docs_validos_apos_finalizar(a: ModeloIndice, b: ModeloIndice, n: nat)
    requires
        docs_validos(a, n),
        listas_u32_finais(a.ceps, b.ceps),
        listas_u32_finais(a.localidades, b.localidades),
        docs_finais(a.ids, b.docs),
        b.ids == Map::<u32, u16>::empty(),
    ensures
        docs_validos(b, n),
{
    assert forall|c: u32, j: int| b.ceps.contains_key(c) && 0 <= j < b.ceps[c].len() implies #[trigger] b.ceps[c][j] < n by {
        assert(b.ceps[c].contains(b.ceps[c][j]));
        assert(a.ceps[c].contains(b.ceps[c][j]));
        let w = choose|w: int| 0 <= w < a.ceps[c].len() && a.ceps[c][w] == b.ceps[c][j];
        assert(a.ceps[c][w] < n);
    }
    assert forall|c: u32, j: int| b.localidades.contains_key(c) && 0 <= j < b.localidades[c].len() implies #[trigger] b.localidades[c][j] < n by {
        assert(b.localidades[c].contains(b.localidades[c][j]));
        assert(a.localidades[c].contains(b.localidades[c][j]));
        let w = choose|w: int| 0 <= w < a.localidades[c].len() && a.localidades[c][w] == b.localidades[c][j];
        assert(a.localidades[c][w] < n);
    }
}

/// Parâmetros da busca.
///
/// A similaridade é uma chave inteira cuja ordem é a ordem das
/// similaridades (maior é mais parecido).
pub struct SearchParams<F> {
    pub sobreposicao_min_tokens: Option<Proporcao>,
    pub similaridade_min: Option<u32>,
    pub max_df_freq: Option<Proporcao>,
    pub similaridade_fun: F,
    pub min_qnt_index_scan: Option<usize>,
}

/// Resposta da busca: o texto do logradouro, a sua similaridade com o
/// logradouro buscado e o seu id.
#[derive(Clone, Copy, Debug)]
pub struct ScoredDoc<'a> {
    pub texto: &'a str,
    pub score: u32,
    pub doc: Doc,
}

/// `r` é uma similaridade que a função `f` pode dar para os textos `a` e `b`.
pub open spec fn pontua<F: Fn(&str, &str) -> u32>(f: F, a: Seq<char>, b: Seq<char>, r: u32) -> bool {
    exists|x: &str, y: &str| x@ == a && y@ == b && #[trigger] call_ensures(f, (x, y), r)
}

/// O melhor (documento, similaridade): a maior similaridade a partir de
/// `min`, desempatando pelo maior documento; `None` se nenhuma alcança `min`.
pub open spec fn melhor_modelo(docs: Seq<u32>, sims: Seq<u32>, min: u32) -> Option<(u32, u32)>
    decreases docs.len(),
{
    if docs.len() == 0 {
        None
    } else {
        let antes = melhor_modelo(docs.drop_last(), sims.take(docs.len() - 1), min);
        let d = docs.last();
        let s = sims[docs.len() - 1];
        if s >= min {
            match antes {
                None => Some((d, s)),
                Some((bd, bs)) => if s > bs || (s == bs && d >= bd) {
                    Some((d, s))
                } else {
                    antes
                },
            }
        } else {
            antes
        }
    }
}

/// O mínimo de similaridade: o informado, ou zero.
pub open spec fn similaridade_minima(m: Option<u32>) -> u32 {
    match m {
        Some(x) => x,
        None => 0,
    }
}

/// Sem similaridade mínima, nenhuma similaridade é rejeitada: toda
/// similaridade alcança o mínimo, e com ao menos um candidato há resposta
/// (a de maior similaridade, desempatada pelo maior id).
pub proof fn lei_sem_minimo_responde<F: Fn(&str, &str) -> u32>(
    r: Option<ScoredDoc>,
    cands: Seq<u32>,
    q: Seq<char>,
    textos: Seq<Seq<char>>,
    f: F,
    sims: Seq<u32>,
)
    requires
        resposta_com_sims(r, cands, q, textos, f, similaridade_minima(None), sims),
        cands.len() > 0,
    ensures
        similaridade_minima(None) == 0,
        r is Some,
        forall|i: int|
            0 <= i < cands.len() ==> #[trigger] sims[i] < r.unwrap().score || (sims[i] == r.unwrap().score
                && cands[i] <= r.unwrap().doc),
{
    lei_melhor_modelo(cands, sims, similaridade_minima(None));
    assert(sims[0] >= similaridade_minima(None));
}

/// A resposta `r` é a escolha de `melhor_modelo` para as similaridades
/// `sims`, cada uma dada por `f` ao logradouro buscado `q` e ao texto do candidato.
pub open spec fn resposta_com_sims<F: Fn(&str, &str) -> u32>(
    r: Option<ScoredDoc>,
    cands: Seq<u32>,
    q: Seq<char>,
    textos: Seq<Seq<char>>,
    f: F,
    min: u32,
    sims: Seq<u32>,
) -> bool {
    &&& sims.len() == cands.len()
    &&& forall|i: int| 0 <= i < cands.len() ==> #[trigger] pontua(f, q, textos[cands[i] as int], sims[i])
    &&& corresponde(r, melhor_modelo(cands, sims, min), textos)
}

/// Os documentos de `s` que estão em `v`.
pub open spec fn filtrar_docs(s: Seq<u32>, v: Seq<u32>) -> Seq<u32>
    decreases s.len(),
{
    if s.len() == 0 {
        s
    } else {
        let r = filtrar_docs(s.drop_last(), v);
        if v.contains(s.last()) {
            r.push(s.last())
        } else {
            r
        }
    }
}

/// A resposta de um documento para a similaridade `x`: o documento com o seu
/// texto e `x`, se `x` alcança o mínimo; senão, nenhuma.
pub open spec fn nota_do_doc(r: Option<ScoredDoc>, x: u32, doc: u32, min: u32, textos: Seq<Seq<char>>) -> bool {
    match r {
        Some(sd) => x >= min && sd.score == x && sd.doc == doc && sd.texto@ == textos[doc as int],
        None => x < min,
    }
}

/// A resposta corresponde ao (documento, similaridade) escolhido, com o texto do documento.
pub open spec fn corresponde(r: Option<ScoredDoc>, m: Option<(u32, u32)>, textos: Seq<Seq<char>>) -> bool {
    match (r, m) {
        (None, None) => true,
        (Some(sd), Some((d, s))) => sd.doc == d && sd.score == s && sd.texto@ == textos[d as int],
        _ => false,
    }
}

/// Num texto ASCII, toda posição é fronteira de caractere.
pub proof fn lema_ascii_janelas(c: Seq<char>, n: nat)
    requires
        is_ascii_chars(c),
    ensures
        janelas_em_fronteira(encode_utf8(c), n),
{
    let b = encode_utf8(c);
    vstd::utf8::is_ascii_chars_encode_utf8(c);
    vstd::utf8::encode_utf8_valid_utf8(c);
    vstd::utf8::is_char_boundary_start_end_of_seq(b);
    assert forall|i: int| 0 <= i <= b.len() implies vstd::utf8::is_char_boundary(b, i) by {
        if i < b.len() {
            vstd::utf8::is_ascii_chars_nat_bound(c);
            assert((c[i] as nat) < 128);
            vstd::utf8::is_char_boundary_iff_not_is_continuation_byte(b, i);
        }
    }
}

/// O melhor (documento, similaridade) é um dos candidatos, alcança o
/// mínimo e não perde para nenhum candidato que o alcança, na ordem
/// (similaridade, documento); não há melhor só quando nenhum alcança o mínimo.
pub proof fn lei_melhor_modelo(docs: Seq<u32>, sims: Seq<u32>, min: u32)
    requires
        sims.len() == docs.len(),
    ensures
        match melhor_modelo(docs, sims, min) {
            None => forall|i: int| 0 <= i < docs.len() ==> #[trigger] sims[i] < min,
            Some((d, s)) => {
                &&& s >= min
                &&& exists|i: int| 0 <= i < docs.len() && docs[i] == d && #[trigger] sims[i] == s
                &&& forall|i: int|
                    0 <= i < docs.len() && #[trigger] sims[i] >= min ==> sims[i] < s || (sims[i] == s
                        && docs[i] <= d)
            },
        },
    decreases docs.len(),
{
    if docs.len() > 0 {
        let n = docs.len() - 1;
        let d0 = docs.drop_last();
        let s0 = sims.take(n);
        lei_melhor_modelo(d0, s0, min);
        assert forall|i: int| 0 <= i < n implies d0[i] == docs[i] && #[trigger] s0[i] == sims[i] by {
        }
        let antes = melhor_modelo(d0, s0, min);
        match melhor_modelo(docs, sims, min) {
            None => {
                assert forall|i: int| 0 <= i < docs.len() implies #[trigger] sims[i] < min by {
                    if i < n {
                        assert(s0[i] < min);
                    }
                }
            },
            Some((d, s)) => {
                if sims[n] >= min && (antes is None || (sims[n] > antes.unwrap().1 || (sims[n]
                    == antes.unwrap().1 && docs[n] >= antes.unwrap().0))) {
                    assert(docs[n] == d && sims[n] == s);
                    assert forall|i: int|
                        0 <= i < docs.len() && #[trigger] sims[i] >= min implies sims[i] < s || (
                        sims[i] == s && docs[i] <= d) by {
                        if i < n {
                            assert(s0[i] >= min);
                        }
                    }
                } else {
                    let (bd, bs) = antes.unwrap();
                    let w = choose|i: int| 0 <= i < d0.len() && d0[i] == bd && #[trigger] s0[i] == bs;
                    assert(docs[w] == d && sims[w] == s);
                    assert forall|i: int|
                        0 <= i < docs.len() && #[trigger] sims[i] >= min implies sims[i] < s || (
                        sims[i] == s && docs[i] <= d) by {
                        if i < n {
                            assert(s0[i] >= min);
                        }
                    }
                }
            },
        }
    }
}

/// O que a busca devolve: nada quando nenhum candidato alcança a
/// similaridade mínima; senão, o candidato de maior similaridade (e, no
/// empate, de maior id), com o seu texto e uma similaridade que a função
/// dá para ele.
pub proof fn lei_resposta_da_busca<F: Fn(&str, &str) -> u32>(
    r: Option<ScoredDoc>,
    cands: Seq<u32>,
    q: Seq<char>,
    textos: Seq<Seq<char>>,
    f: F,
    min: u32,
    sims: Seq<u32>,
)
    requires
        resposta_com_sims(r, cands, q, textos, f, min, sims),
    ensures
        r is None <==> forall|i: int| 0 <= i < cands.len() ==> #[trigger] sims[i] < min,
        r matches Some(sd) ==> {
            &&& sd.score >= min
            &&& sd.texto@ == textos[sd.doc as int]
            &&& pontua(f, q, textos[sd.doc as int], sd.score)
            &&& exists|i: int| 0 <= i < cands.len() && cands[i] == sd.doc && #[trigger] sims[i] == sd.score
            &&& forall|i: int|
                0 <= i < cands.len() && #[trigger] sims[i] >= min ==> sims[i] < sd.score || (sims[i]
                    == sd.score && cands[i] <= sd.doc)
        },
{
    lei_melhor_modelo(cands, sims, min);
    if let Some(sd) = r {
        let w = choose|i: int| 0 <= i < cands.len() && cands[i] == sd.doc && #[trigger] sims[i] == sd.score;
        assert(pontua(f, q, textos[cands[w] as int], sims[w]));
    } else {
        if cands.len() > 0 {
            assert(sims[0] < min);
        }
    }
}

/// O indexador: pools de textos (localidades, municípios, estados e
/// logradouros), o índice de cada par (município, estado) e o tokenizador.
#[derive(Clone)]
pub struct GeocodeBrIndexer {
    loc_pool: StringPool,
    mun_pool: StringPool,
    est_pool: StringPool,
    logr_pool: StringPool,
    municipios: FxHashMap<(u32, u32), u32>,
    indices: Vec<IndiceMunicipio>,
    tokenizer: NgramTokenizer,
}

impl GeocodeBrIndexer {
    /// O pool de localidades (bairros).
    pub closed spec fn localidades(&self) -> StringPool {
        self.loc_pool
    }

    /// O pool de municípios.
    pub closed spec fn municipios_pool(&self) -> StringPool {
        self.mun_pool
    }

    /// O pool de estados.
    pub closed spec fn estados(&self) -> StringPool {
        self.est_pool
    }

    /// O pool de logradouros: o id de um logradouro é o seu id de documento.
    pub closed spec fn logradouros(&self) -> StringPool {
        self.logr_pool
    }

    /// O tokenizador de n-gramas.
    pub closed spec fn tokenizador(&self) -> NgramTokenizer {
        self.tokenizer
    }

    /// De (id do município, id do estado) para a posição do seu índice.
    pub closed spec fn chaves(&self) -> Map<(u32, u32), u32> {
        conteudo_par_u32(self.municipios)
    }

    /// Os índices dos municípios.
    pub closed spec fn indices(&self) -> Seq<ModeloIndice> {
        self.indices@.map_values(|i: IndiceMunicipio| i@)
    }

    /// Boa formação: pools e tokenizador bem formados, cada chave aponta
    /// para um índice, e os índices só citam logradouros do pool.
    pub closed spec fn wf(&self) -> bool {
        &&& self.loc_pool.wf()
        &&& self.mun_pool.wf()
        &&& self.est_pool.wf()
        &&& self.logr_pool.wf()
        &&& self.tokenizer.wf()
        &&& self.indices@.len() <= u32::MAX
        &&& self.chaves().dom().finite()
        &&& self.chaves().dom().len() <= self.indices@.len()
        &&& forall|k: (u32, u32)|
            #[trigger] self.chaves().contains_key(k) ==> self.chaves()[k] < self.indices@.len()
        &&& forall|i: int|
            0 <= i < self.indices@.len() ==> #[trigger] self.indices@[i].wf() && docs_validos(
                self.indices@[i]@,
                self.logr_pool.textos().len(),
            )
    }

    /// Nenhum índice de município foi finalizado ainda.
    pub closed spec fn pode_finalizar(&self) -> bool {
        forall|i: int| 0 <= i < self.indices@.len() ==> #[trigger] self.indices@[i].pode_finalizar()
    }

    /// Todos os índices de município estão prontos para a busca.
    pub closed spec fn pronto(&self) -> bool {
        forall|i: int| 0 <= i < self.indices@.len() ==> #[trigger] self.indices@[i].pronto()
    }

    /// `add` cabe nos limites de `u32` dos pools e do número de municípios.
    pub open spec fn cabe_add(
        &self,
        estado: Seq<char>,
        municipio: Seq<char>,
        logradouro: Seq<char>,
        localidade: Option<&str>,
    ) -> bool {
        &&& self.municipios_pool().cabe(municipio)
        &&& self.estados().cabe(estado)
        &&& self.logradouros().cabe(logradouro)
        &&& (localidade matches Some(l) ==> self.localidades().cabe(l@))
        &&& self.indices().len() < u32::MAX
    }

    /// Um indexador vazio, com n-gramas de `ngram_size` bytes.
    pub fn new(ngram_size: usize) -> (r: Self)
        ensures
            r.wf(),
            r.pode_finalizar(),
            r.pronto(),
            r.tokenizador().ngram_size == ngram_size,
            r.tokenizador().tokens() == Map::<Seq<char>, u16>::empty(),
            r.localidades().textos().len() == 0,
            r.municipios_pool().textos().len() == 0,
            r.estados().textos().len() == 0,
            r.logradouros().textos().len() == 0,
            r.chaves() == Map::<(u32, u32), u32>::empty(),
            r.indices().len() == 0,
    {
        GeocodeBrIndexer {
            loc_pool: StringPool::default(),
            mun_pool: StringPool::default(),
            est_pool: StringPool::default(),
            logr_pool: StringPool::default(),
            municipios: par_u32_novo(),
            indices: Vec::new(),
            tokenizer: NgramTokenizer::new(ngram_size),
        }
    }

    /// Registra um logradouro no índice do seu município, junto com a sua
    /// localidade e o seu CEP (um CEP inválido é ignorado).
    pub fn add(
        &mut self,
        estado: &str,
        municipio: &str,
        logradouro: &str,
        localidade: Option<&str>,
        cep: Option<&str>,
    )
        requires
            old(self).wf(),
            old(self).cabe_add(estado@, municipio@, logradouro@, localidade),
            janelas_em_fronteira(logradouro.spec_bytes(), old(self).tokenizador().ngram_size as nat),
            ngramas_cabem(logradouro.spec_bytes(), old(self).tokenizador().ngram_size as nat),
        ensures
            final(self).wf(),
            old(self).pode_finalizar() ==> final(self).pode_finalizar(),
            final(self).municipios_pool().tamanho_blob() == old(self).municipios_pool().tamanho_apos_push(
                municipio@,
            ),
            final(self).estados().tamanho_blob() == old(self).estados().tamanho_apos_push(estado@),
            final(self).logradouros().tamanho_blob() == old(self).logradouros().tamanho_apos_push(
                logradouro@,
            ),
            final(self).localidades().tamanho_blob() == match localidade {
                Some(l) => old(self).localidades().tamanho_apos_push(l@),
                None => old(self).localidades().tamanho_blob(),
            },
            ({
                let (mt, mi, mid) = push_modelo(
                    old(self).municipios_pool().textos(),
                    old(self).municipios_pool().indice(),
                    municipio@,
                );
                let (et, ei, eid) = push_modelo(
                    old(self).estados().textos(),
                    old(self).estados().indice(),
                    estado@,
                );
                let (lt, li, lid) = push_modelo(
                    old(self).logradouros().textos(),
                    old(self).logradouros().indice(),
                    logradouro@,
                );
                let (tk, toks) = tokens_indexados(
                    ngramas(logradouro.spec_bytes(), old(self).tokenizador().ngram_size as nat),
                    old(self).tokenizador().tokens(),
                );
                let chave = (mid, eid);
                let novo = !old(self).chaves().contains_key(chave);
                let pos = if novo {
                    old(self).indices().len() as u32
                } else {
                    old(self).chaves()[chave]
                };
                let base = if novo {
                    modelo_vazio()
                } else {
                    old(self).indices()[pos as int]
                };
                let loc_id = match localidade {
                    Some(l) => Some(
                        push_modelo(
                            old(self).localidades().textos(),
                            old(self).localidades().indice(),
                            l@,
                        ).2,
                    ),
                    None => None,
                };
                &&& (final(self).municipios_pool().textos(), final(self).municipios_pool().indice())
                    == (mt, mi)
                &&& (final(self).estados().textos(), final(self).estados().indice()) == (et, ei)
                &&& (final(self).logradouros().textos(), final(self).logradouros().indice()) == (
                    lt,
                    li,
                )
                &&& final(self).tokenizador().tokens() == tk
                &&& final(self).tokenizador().ngram_size == old(self).tokenizador().ngram_size
                &&& match localidade {
                    Some(l) => {
                        let (ct, ci, _) = push_modelo(
                            old(self).localidades().textos(),
                            old(self).localidades().indice(),
                            l@,
                        );
                        (final(self).localidades().textos(), final(self).localidades().indice())
                            == (ct, ci)
                    },
                    None => (final(self).localidades().textos(), final(self).localidades().indice())
                        == (old(self).localidades().textos(), old(self).localidades().indice()),
                }
                &&& final(self).chaves() == (if novo {
                    old(self).chaves().insert(chave, pos)
                } else {
                    old(self).chaves()
                })
                &&& (padronizar_modelo(municipio@) == municipio@ && sigla_modelo(
                    padronizar_modelo(estado@),
                ) == estado@) ==> final(self).posicao_municipio(estado@, municipio@) == Some(pos)
                &&& final(self).indices() == (if novo {
                    old(self).indices().push(base)
                } else {
                    old(self).indices()
                }).update(
                    pos as int,
                    modelo_apos_add(
                        base,
                        toks,
                        lid,
                        loc_id,
                        match cep {
                            Some(c) => cep_modelo(c@),
                            None => None,
                        },
                    ),
                )
            }),
    {
        let mun_id = self.mun_pool.push(municipio);
        let est_id = self.est_pool.push(estado);
        let chave = (mun_id, est_id);
        let ghost indices0 = self.indices@;
        let ghost n0 = self.logr_pool.textos().len();
        assert(self.chaves() == old(self).chaves());
        assert(self.indices@ == old(self).indices@);
        let pos: u32 = match par_u32_obter(&self.municipios, chave) {
            Some(p) => {
                assert(old(self).chaves().contains_key(chave));
                p
            },
            None => {
                assert(old(self).indices().len() == self.indices@.len());
                let p = self.indices.len() as u32;
                let novo_idx = IndiceMunicipio::new();
                proof {
                    lema_docs_validos_vazio(n0);
                }
                self.indices.push(novo_idx);
                par_u32_inserir(&mut self.municipios, chave, p);
                assert forall|k: (u32, u32)| #[trigger] self.chaves().contains_key(k) implies self.chaves()[k] < self.indices@.len() by {
                    if k != chave {
                        assert(old(self).chaves().contains_key(k));
                    }
                }
                p
            },
        };
        let ghost indices1 = self.indices@;
        proof {
            assert(pos < indices1.len());
            assert(forall|i: int| 0 <= i < indices1.len() ==> #[trigger] indices1[i].wf() && docs_validos(indices1[i]@, n0)) by {
                assert forall|i: int| 0 <= i < indices1.len() implies #[trigger] indices1[i].wf() && docs_validos(indices1[i]@, n0) by {
                    if i < indices0.len() {
                        assert(indices1[i] == indices0[i]);
                    }
                }
            }
            assert(forall|k: (u32, u32)| #[trigger] self.chaves().contains_key(k) ==> self.chaves()[k] < indices1.len());
        }
        let tokens = self.tokenizer.tokenize_index(logradouro);
        let logradouro_id = self.logr_pool.push(logradouro);
        let ghost n1 = self.logr_pool.textos().len();
        assert(logradouro_id < n1);
        assert(n0 <= n1);
        let mut idx = IndiceMunicipio::new();
        self.indices.set_and_swap(pos as usize, &mut idx);
        let ghost base = idx;
        assert(base == indices1[pos as int]);
        assert(indices1[pos as int].wf());
        idx.idx_logradouro.add(tokens.as_slice(), logradouro_id);
        let ghost cobre = idx.idx_logradouro.ids_cobrem_baldes();
        assert(base.idx_logradouro.ids_cobrem_baldes() ==> cobre);
        let ghost loc_id: Option<u32> = None;
        match localidade {
            Some(loc) => {
                let localidade_id = self.loc_pool.push(loc);
                proof {
                    loc_id = Some(localidade_id);
                }
                adicionar_em_lista(&mut idx.por_localidade, localidade_id, logradouro_id);
            },
            None => {},
        }
        let ghost cep_num: Option<u32> = None;
        match cep {
            Some(c) => match cep_para_numero(c) {
                Some(n) => {
                    proof {
                        cep_num = Some(n);
                    }
                    adicionar_em_lista(&mut idx.por_cep, n, logradouro_id);
                },
                None => {},
            },
            None => {},
        }
        proof {
            assert(idx@ == modelo_apos_add(base@, tokens@, logradouro_id, loc_id, cep_num));
            lema_docs_validos_apos_add(base@, tokens@, logradouro_id, loc_id, cep_num, n0, n1);
            assert(cobre == idx.idx_logradouro.ids_cobrem_baldes());
            if base.pode_finalizar() {
                lema_registradas_apos_add(base@, tokens@, logradouro_id, loc_id, cep_num);
                assert(idx.pode_finalizar());
            }
        }
        self.indices.set(pos as usize, idx);
        proof {
            assert(self.indices@ == indices1.update(pos as int, idx));
            assert forall|i: int| 0 <= i < self.indices@.len() implies #[trigger] self.indices@[i].wf() && docs_validos(self.indices@[i]@, n1) by {
                if i != pos {
                    assert(self.indices@[i] == indices1[i]);
                    assert(indices1[i].wf());
                    lema_docs_validos_mono(indices1[i]@, n0, n1);
                }
            }
            if old(self).pode_finalizar() {
                assert forall|i: int| 0 <= i < self.indices@.len() implies #[trigger] self.indices@[i].pode_finalizar() by {
                    if i < indices0.len() {
                        assert(indices1[i] == indices0[i]);
                        assert(indices0[i].pode_finalizar());
                    }
                    if i == pos {
                        assert(base.pode_finalizar());
                    }
                }
            }
            assert(self.indices() =~= (if old(self).chaves().contains_key(chave) { old(self).indices() } else { old(self).indices().push(base@) }).update(pos as int, idx@));
        }
    }

    /// Libera capacidade sobrando, esvazia o índice inverso dos logradouros e
    /// prepara cada índice de município para a busca: listas ordenadas e sem
    /// repetição, e os documentos do índice invertido em ordem de id interno.
    pub fn finalizar(&mut self)
        requires
            old(self).wf(),
        ensures
            final(self).wf(),
            old(self).pode_finalizar() ==> final(self).pronto(),
            final(self).localidades().textos() == old(self).localidades().textos(),
            final(self).localidades().indice() == old(self).localidades().indice(),
            final(self).municipios_pool().textos() == old(self).municipios_pool().textos(),
            final(self).municipios_pool().indice() == old(self).municipios_pool().indice(),
            final(self).estados().textos() == old(self).estados().textos(),
            final(self).estados().indice() == old(self).estados().indice(),
            final(self).logradouros().textos() == old(self).logradouros().textos(),
            final(self).logradouros().indice() == Map::<Seq<char>, u32>::empty(),
            final(self).localidades().bytes() == old(self).localidades().bytes(),
            final(self).localidades().intervalos() == old(self).localidades().intervalos(),
            final(self).municipios_pool().bytes() == old(self).municipios_pool().bytes(),
            final(self).municipios_pool().intervalos() == old(self).municipios_pool().intervalos(),
            final(self).estados().bytes() == old(self).estados().bytes(),
            final(self).estados().intervalos() == old(self).estados().intervalos(),
            final(self).logradouros().bytes() == old(self).logradouros().bytes(),
            final(self).logradouros().intervalos() == old(self).logradouros().intervalos(),
            final(self).tokenizador().tokens() == old(self).tokenizador().tokens(),
            final(self).tokenizador().ngram_size == old(self).tokenizador().ngram_size,
            final(self).chaves() == old(self).chaves(),
            final(self).indices().len() == old(self).indices().len(),
            forall|i: int|
                0 <= i < final(self).indices().len() ==> {
                    let a = old(self).indices()[i];
                    let b = #[trigger] final(self).indices()[i];
                    &&& listas_u32_finais(a.ceps, b.ceps)
                    &&& listas_u32_finais(a.localidades, b.localidades)
                    &&& listas_finais(a.baldes, b.baldes)
                    &&& docs_finais(a.ids, b.docs)
                    &&& b.ids == Map::<u32, u16>::empty()
                },
            forall|i: int, d: u32|
                0 <= i < final(self).indices().len() && old(self).indices()[i].ids.contains_key(d)
                    ==> #[trigger] final(self).indices()[i].docs.contains(d),
            old(self).pode_finalizar() ==> forall|i: int|
                0 <= i < final(self).indices().len() ==> listas_indexadas(
                    #[trigger] final(self).indices()[i],
                ),
            forall|e: Seq<char>, m: Seq<char>|
                #[trigger] final(self).posicao_municipio(e, m) == old(self).posicao_municipio(e, m),
    {
        self.loc_pool.shrink_to_fit();
        self.mun_pool.shrink_to_fit();
        self.est_pool.shrink_to_fit();
        self.logr_pool.limpar_inverso();
        self.logr_pool.shrink_to_fit();
        par_u32_encolher(&mut self.municipios);
        self.tokenizer.shrink_to_fit();
        let ghost n = self.logr_pool.textos().len();
        let ghost ind0 = self.indices@;
        let tam = self.indices.len();
        let mut i: usize = 0;
        while i < tam
            invariant
                i <= tam,
                tam == self.indices@.len(),
                ind0.len() == tam,
                ind0 == old(self).indices@,
                n == self.logr_pool.textos().len(),
                self.loc_pool.wf(),
                self.loc_pool.textos() == old(self).loc_pool.textos(),
                self.loc_pool.indice() == old(self).loc_pool.indice(),
                self.mun_pool.wf(),
                self.mun_pool.textos() == old(self).mun_pool.textos(),
                self.mun_pool.indice() == old(self).mun_pool.indice(),
                self.est_pool.wf(),
                self.est_pool.textos() == old(self).est_pool.textos(),
                self.est_pool.indice() == old(self).est_pool.indice(),
                self.logr_pool.wf(),
                self.logr_pool.textos() == old(self).logr_pool.textos(),
                self.logr_pool.indice() == Map::<Seq<char>, u32>::empty(),
                self.loc_pool.bytes() == old(self).loc_pool.bytes(),
                self.loc_pool.intervalos() == old(self).loc_pool.intervalos(),
                self.mun_pool.bytes() == old(self).mun_pool.bytes(),
                self.mun_pool.intervalos() == old(self).mun_pool.intervalos(),
                self.est_pool.bytes() == old(self).est_pool.bytes(),
                self.est_pool.intervalos() == old(self).est_pool.intervalos(),
                self.logr_pool.bytes() == old(self).logr_pool.bytes(),
                self.logr_pool.intervalos() == old(self).logr_pool.intervalos(),
                self.tokenizer.wf(),
                self.tokenizer.tokens() == old(self).tokenizer.tokens(),
                self.tokenizer.ngram_size == old(self).tokenizer.ngram_size,
                self.chaves() == old(self).chaves(),
                old(self).wf(),
                forall|k: int| i <= k < tam ==> #[trigger] self.indices@[k] == ind0[k],
                forall|k: int|
                    0 <= k < i ==> {
                        let a = ind0[k]@;
                        let b = #[trigger] self.indices@[k];
                        &&& b.wf()
                        &&& docs_validos(b@, n)
                        &&& listas_u32_finais(a.ceps, b@.ceps)
                        &&& listas_u32_finais(a.localidades, b@.localidades)
                        &&& listas_finais(a.baldes, b@.baldes)
                        &&& docs_finais(a.ids, b@.docs)
                        &&& b@.ids == Map::<u32, u16>::empty()
                        &&& (ind0[k].pode_finalizar() ==> b.pronto() && listas_indexadas(b@))
                    },
            decreases tam - i,
        {
            let mut idx = IndiceMunicipio::new();
            self.indices.set_and_swap(i, &mut idx);
            let ghost a = idx;
            assert(a == ind0[i as int]);
            assert(ind0[i as int].wf() && docs_validos(ind0[i as int]@, n));
            idx.idx_logradouro.finalizar();
            finalizar_listas(&mut idx.por_cep);
            finalizar_listas(&mut idx.por_localidade);
            proof {
                lema_docs_validos_apos_finalizar(a@, idx@, n);
                if a.pode_finalizar() {
                    lema_indexadas_apos_finalizar(a@, idx@);
                    assert forall|c: u32| #[trigger] idx@.ceps.contains_key(c) implies ordenada(idx@.ceps[c]) by {
                        assert(estritamente_crescente(idx@.ceps[c]));
                    }
                    assert forall|c: u32| #[trigger] idx@.localidades.contains_key(c) implies ordenada(idx@.localidades[c]) by {
                        assert(estritamente_crescente(idx@.localidades[c]));
                    }
                }
            }
            self.indices.set(i, idx);
            i += 1;
        }
        proof {
            assert forall|k: int| 0 <= k < self.indices@.len() implies #[trigger] self.indices@[k].wf() && docs_validos(self.indices@[k]@, n) by {
                let b = self.indices@[k];
            }
            if old(self).pode_finalizar() {
                assert forall|k: int| 0 <= k < self.indices@.len() implies #[trigger] self.indices@[k].pronto() by {
                    assert(ind0[k].pode_finalizar());
                }
            }
            assert forall|k: int| 0 <= k < self.indices().len() implies {
                let a = old(self).indices()[k];
                let b = #[trigger] self.indices()[k];
                &&& listas_u32_finais(a.ceps, b.ceps)
                &&& listas_u32_finais(a.localidades, b.localidades)
                &&& listas_finais(a.baldes, b.baldes)
                &&& docs_finais(a.ids, b.docs)
                &&& b.ids == Map::<u32, u16>::empty()
            } by {
                let b = self.indices@[k];
            }
            assert forall|k: int, d: u32|
                0 <= k < self.indices().len() && old(self).indices()[k].ids.contains_key(d)
                    implies #[trigger] self.indices()[k].docs.contains(d) by {
                assert(ind0[k].wf());
                lei_docs_finais_completos(old(self).indices()[k].ids, self.indices()[k].docs);
            }
            if old(self).pode_finalizar() {
                assert forall|k: int| 0 <= k < self.indices().len() implies listas_indexadas(
                    #[trigger] self.indices()[k],
                ) by {
                    assert(self.indices()[k] == self.indices@[k]@);
                }
            }
        }
    }

    /// `self` é o indexador montado com as partes `p`: os textos dos pools
    /// (com o índice inverso vazio), o tokenizador, e cada município na
    /// posição da sua entrada.
    pub open spec fn montado_de(&self, p: PartesIndexador) -> bool {
        &&& self.localidades().textos() == textos_de_partes(
            p.localidades.blob@,
            p.localidades.offsets@,
        )
        &&& self.municipios_pool().textos() == textos_de_partes(
            p.municipios_pool.blob@,
            p.municipios_pool.offsets@,
        )
        &&& self.estados().textos() == textos_de_partes(p.estados.blob@, p.estados.offsets@)
        &&& self.logradouros().textos() == textos_de_partes(
            p.logradouros.blob@,
            p.logradouros.offsets@,
        )
        &&& self.localidades().indice() == Map::<Seq<char>, u32>::empty()
        &&& self.municipios_pool().indice() == Map::<Seq<char>, u32>::empty()
        &&& self.estados().indice() == Map::<Seq<char>, u32>::empty()
        &&& self.logradouros().indice() == Map::<Seq<char>, u32>::empty()
        &&& self.tokenizador().ngram_size == p.ngram_size
        &&& self.tokenizador().tokens() == mapa_de_tokens(p.tokens@)
        &&& self.chaves() == mapa_posicoes(p.municipios@)
        &&& self.indices().len() == p.municipios@.len()
        &&& forall|i: int|
            0 <= i < p.municipios@.len() ==> #[trigger] self.indices()[i] == modelo_de_partes(
                p.municipios@[i].1,
            )
    }

    /// Monta um indexador a partir das partes de um indexador salvo. Os
    /// pools ficam com o índice inverso vazio (ver `preparar_pools`). `None`
    /// se as partes não formam um indexador pronto para a busca.
    pub fn de_partes(p: PartesIndexador) -> (r: Option<Self>)
        ensures
            r is Some <==> partes_indexador_validas(p),
            r matches Some(g) ==> {
                &&& g.wf()
                &&& g.pronto()
                &&& g.montado_de(p)
            },
    {
        let ghost p0 = p;
        let n = p.logradouros.offsets.len();
        let loc_pool = match StringPool::de_partes(p.localidades.blob, p.localidades.offsets) {
            Some(x) => x,
            None => {
                return None;
            },
        };
        let mun_pool = match StringPool::de_partes(p.municipios_pool.blob, p.municipios_pool.offsets) {
            Some(x) => x,
            None => {
                return None;
            },
        };
        let est_pool = match StringPool::de_partes(p.estados.blob, p.estados.offsets) {
            Some(x) => x,
            None => {
                return None;
            },
        };
        let logr_pool = match StringPool::de_partes(p.logradouros.blob, p.logradouros.offsets) {
            Some(x) => x,
            None => {
                return None;
            },
        };
        let (mapa, indices) = match montar_municipios(&p.municipios, n) {
            Some(x) => x,
            None => {
                return None;
            },
        };
        let tokenizer = NgramTokenizer::de_partes(p.ngram_size, &p.tokens);
        let ghost ind = indices@;
        let g = GeocodeBrIndexer {
            loc_pool,
            mun_pool,
            est_pool,
            logr_pool,
            municipios: mapa,
            indices,
            tokenizer,
        };
        proof {
            assert forall|j: int| 0 <= j < p0.municipios@.len() implies #[trigger] g.indices()[j]
                == modelo_de_partes(p0.municipios@[j].1) by {
                assert(g.indices@[j] == ind[j]);
            }
        }
        Some(g)
    }

    /// `p` são as partes de `self`: os bytes e intervalos de cada pool, o
    /// tokenizador, e uma entrada por chave de município com as partes do
    /// seu índice.
    pub open spec fn tem_partes(&self, p: PartesIndexador) -> bool {
        &&& p.localidades.blob@ == self.localidades().bytes()
        &&& p.localidades.offsets@ == self.localidades().intervalos()
        &&& p.municipios_pool.blob@ == self.municipios_pool().bytes()
        &&& p.municipios_pool.offsets@ == self.municipios_pool().intervalos()
        &&& p.estados.blob@ == self.estados().bytes()
        &&& p.estados.offsets@ == self.estados().intervalos()
        &&& p.logradouros.blob@ == self.logradouros().bytes()
        &&& p.logradouros.offsets@ == self.logradouros().intervalos()
        &&& p.ngram_size == self.tokenizador().ngram_size
        &&& mapa_de_tokens(p.tokens@) == self.tokenizador().tokens()
        &&& p.municipios@.len() <= self.indices().len()
        &&& forall|i: int, j: int|
            0 <= i < j < p.municipios@.len() ==> #[trigger] p.municipios@[i].0
                != #[trigger] p.municipios@[j].0
        &&& forall|i: int|
            0 <= i < p.municipios@.len() ==> {
                &&& self.chaves().contains_key(#[trigger] p.municipios@[i].0)
                &&& modelo_de_partes(p.municipios@[i].1) == self.indices()[self.chaves()[p.municipios@[i].0] as int]
            }
        &&& forall|k: (u32, u32)|
            self.chaves().contains_key(k) ==> exists|i: int|
                0 <= i < p.municipios@.len() && #[trigger] p.municipios@[i].0 == k
        &&& self.pronto() ==> forall|i: int|
            0 <= i < p.municipios@.len() ==> partes_municipio_validas(
                #[trigger] p.municipios@[i].1,
                self.logradouros().textos().len(),
            )
    }

    /// As partes do indexador, para salvá-lo.
    pub fn partes(&self) -> (r: PartesIndexador)
        requires
            self.wf(),
        ensures
            self.tem_partes(r),
    {
        let localidades = PartesPool {
            blob: self.loc_pool.blob().clone(),
            offsets: copiar_intervalos(self.loc_pool.offsets()),
        };
        let municipios_pool = PartesPool {
            blob: self.mun_pool.blob().clone(),
            offsets: copiar_intervalos(self.mun_pool.offsets()),
        };
        let estados = PartesPool {
            blob: self.est_pool.blob().clone(),
            offsets: copiar_intervalos(self.est_pool.offsets()),
        };
        let logradouros = PartesPool {
            blob: self.logr_pool.blob().clone(),
            offsets: copiar_intervalos(self.logr_pool.offsets()),
        };
        assert(localidades.blob@ =~= self.localidades().bytes());
        assert(localidades.offsets@ =~= self.localidades().intervalos());
        assert(municipios_pool.blob@ =~= self.municipios_pool().bytes());
        assert(municipios_pool.offsets@ =~= self.municipios_pool().intervalos());
        assert(estados.blob@ =~= self.estados().bytes());
        assert(estados.offsets@ =~= self.estados().intervalos());
        assert(logradouros.blob@ =~= self.logradouros().bytes());
        assert(logradouros.offsets@ =~= self.logradouros().intervalos());
        let chaves = par_u32_chaves(&self.municipios);
        let ghost c = self.chaves();
        proof {
            chaves@.unique_seq_to_set();
            assert(chaves@.to_set() =~= c.dom());
        }
        let mut municipios: Vec<((u32, u32), PartesMunicipio)> = Vec::new();
        let mut j: usize = 0;
        while j < chaves.len()
            invariant
                j <= chaves@.len(),
                municipios@.len() == j,
                c == self.chaves(),
                self.wf(),
                chaves@.no_duplicates(),
                forall|k: (u32, u32)| chaves@.contains(k) <==> c.contains_key(k),
                forall|i: int|
                    0 <= i < j ==> {
                        &&& #[trigger] municipios@[i].0 == chaves@[i]
                        &&& c.contains_key(municipios@[i].0)
                        &&& modelo_de_partes(municipios@[i].1) == self.indices()[c[municipios@[i].0] as int]
                        &&& self.pronto() ==> partes_municipio_validas(
                            municipios@[i].1,
                            self.logradouros().textos().len(),
                        )
                    },
            decreases chaves@.len() - j,
        {
            let k = chaves[j];
            assert(chaves@.contains(k));
            let pos = match par_u32_obter(&self.municipios, k) {
                Some(p) => p,
                None => {
                    assert(false);
                    0
                },
            };
            assert(c.contains_key(k));
            let m = &self.indices[pos as usize];
            assert(self.indices()[pos as int] == m@);
            assert(self.indices@[pos as int].wf());
            assert(docs_validos(m@, self.logradouros().textos().len()));
            let pm = m.partes();
            proof {
                if self.pronto() {
                    assert(self.indices@[pos as int].pronto());
                    assert(m.pronto());
                    assert(partes_municipio_validas(pm, self.logradouros().textos().len()));
                }
            }
            municipios.push((k, pm));
            j += 1;
        }
        let tokens = self.tokenizer.entradas();
        let r = PartesIndexador {
            localidades,
            municipios_pool,
            estados,
            logradouros,
            municipios,
            ngram_size: self.tokenizer.ngram_size,
            tokens,
        };
        proof {
            assert forall|a: int, b: int|
                0 <= a < b < r.municipios@.len() implies #[trigger] r.municipios@[a].0
                    != #[trigger] r.municipios@[b].0 by {
                assert(r.municipios@[a].0 == chaves@[a]);
                assert(r.municipios@[b].0 == chaves@[b]);
            }
            assert forall|k: (u32, u32)| c.contains_key(k) implies exists|a: int|
                0 <= a < r.municipios@.len() && #[trigger] r.municipios@[a].0 == k by {
                assert(chaves@.contains(k));
                let a = choose|a: int| 0 <= a < chaves@.len() && chaves@[a] == k;
                assert(r.municipios@[a].0 == chaves@[a]);
            }
            assert forall|a: int| 0 <= a < r.municipios@.len() implies {
                &&& c.contains_key(#[trigger] r.municipios@[a].0)
                &&& modelo_de_partes(r.municipios@[a].1) == self.indices()[c[r.municipios@[a].0] as int]
            } by {
            }
            if self.pronto() {
                assert forall|a: int| 0 <= a < r.municipios@.len() implies partes_municipio_validas(
                    #[trigger] r.municipios@[a].1,
                    self.logradouros().textos().len(),
                ) by {
                    assert(r.municipios@[a].0 == chaves@[a]);
                }
            }
        }
        r
    }

    /// `self` e `outro` têm os mesmos textos, o mesmo tokenizador e as
    /// mesmas chaves de município, cada uma com o mesmo índice.
    pub open spec fn mesmo_conteudo(&self, outro: &Self) -> bool {
        &&& self.localidades().textos() == outro.localidades().textos()
        &&& self.municipios_pool().textos() == outro.municipios_pool().textos()
        &&& self.estados().textos() == outro.estados().textos()
        &&& self.logradouros().textos() == outro.logradouros().textos()
        &&& self.tokenizador().ngram_size == outro.tokenizador().ngram_size
        &&& self.tokenizador().tokens() == outro.tokenizador().tokens()
        &&& forall|k: (u32, u32)| #[trigger] self.chaves().contains_key(k) <==> outro.chaves().contains_key(k)
        &&& forall|k: (u32, u32)|
            #[trigger] self.chaves().contains_key(k) ==> self.indices()[self.chaves()[k] as int]
                == outro.indices()[outro.chaves()[k] as int]
    }

    /// Salvar e carregar: as partes de um indexador pronto formam um
    /// indexador, e o indexador montado com elas tem o mesmo conteúdo.
    pub proof fn lei_partes_ida_e_volta(&self, p: PartesIndexador, outro: &Self)
        requires
            self.wf(),
            self.pronto(),
            self.tem_partes(p),
        ensures
            partes_indexador_validas(p),
            outro.montado_de(p) ==> self.mesmo_conteudo(outro),
    {
        self.loc_pool.lei_partes_do_pool();
        self.mun_pool.lei_partes_do_pool();
        self.est_pool.lei_partes_do_pool();
        self.logr_pool.lei_partes_do_pool();
        assert(p.municipios@.len() <= u32::MAX);
        if outro.montado_de(p) {
            lema_mapa_posicoes(p.municipios@);
            assert forall|k: (u32, u32)| #[trigger] self.chaves().contains_key(k) <==> outro.chaves().contains_key(k) by {
                if self.chaves().contains_key(k) {
                    let i = choose|i: int| 0 <= i < p.municipios@.len() && #[trigger] p.municipios@[i].0 == k;
                }
                if outro.chaves().contains_key(k) {
                    let i = choose|i: int| 0 <= i < p.municipios@.len() && #[trigger] p.municipios@[i].0 == k;
                }
            }
            assert forall|k: (u32, u32)|
                #[trigger] self.chaves().contains_key(k) implies self.indices()[self.chaves()[k] as int]
                    == outro.indices()[outro.chaves()[k] as int] by {
                let i = choose|i: int| 0 <= i < p.municipios@.len() && #[trigger] p.municipios@[i].0 == k;
                assert(outro.chaves()[k] == i);
                assert(outro.indices()[i] == modelo_de_partes(p.municipios@[i].1));
            }
        }
    }

    /// Dois indexadores com o mesmo conteúdo, com os índices inversos dos
    /// pools de localidades, municípios e estados completos (como depois de
    /// `preparar_pools`), dão os mesmos candidatos para qualquer busca, com os
    /// mesmos textos de logradouro.
    pub proof fn lei_mesmo_conteudo_mesma_busca<F>(
        &self,
        outro: &Self,
        estado: Seq<char>,
        municipio: Seq<char>,
        logradouro: Seq<char>,
        localidade: Option<&str>,
        cep: Option<&str>,
        params: SearchParams<F>,
    )
        requires
            self.mesmo_conteudo(outro),
            self.localidades().indice() == indice_completo(self.localidades().textos()),
            self.municipios_pool().indice() == indice_completo(self.municipios_pool().textos()),
            self.estados().indice() == indice_completo(self.estados().textos()),
            outro.localidades().indice() == indice_completo(outro.localidades().textos()),
            outro.municipios_pool().indice() == indice_completo(outro.municipios_pool().textos()),
            outro.estados().indice() == indice_completo(outro.estados().textos()),
        ensures
            self.candidatos(estado, municipio, logradouro, localidade, cep, params) == outro.candidatos(
                estado,
                municipio,
                logradouro,
                localidade,
                cep,
                params,
            ),
            self.logradouros().textos() == outro.logradouros().textos(),
    {
        let mun = padronizar_modelo(municipio);
        let est = sigla_modelo(padronizar_modelo(estado));
        if self.mun_pool.indice().contains_key(mun) && self.est_pool.indice().contains_key(est) {
            let k = (self.mun_pool.indice()[mun], self.est_pool.indice()[est]);
            if self.chaves().contains_key(k) {
                assert(outro.chaves().contains_key(k));
                let m = self.indices()[self.chaves()[k] as int];
                assert(outro.indices()[outro.chaves()[k] as int] == m);
                assert(self.filtro(m, localidade, cep) == outro.filtro(m, localidade, cep));
            } else {
                assert(!outro.chaves().contains_key(k));
            }
        }
    }

    /// O pool de localidades (bairros).
    pub fn loc_pool(&self) -> (r: &StringPool)
        ensures
            *r == self.localidades(),
            self.wf() ==> r.wf(),
    {
        &self.loc_pool
    }

    /// O pool de municípios.
    pub fn mun_pool(&self) -> (r: &StringPool)
        ensures
            *r == self.municipios_pool(),
            self.wf() ==> r.wf(),
    {
        &self.mun_pool
    }

    /// O pool de estados.
    pub fn est_pool(&self) -> (r: &StringPool)
        ensures
            *r == self.estados(),
            self.wf() ==> r.wf(),
    {
        &self.est_pool
    }

    /// O pool de logradouros.
    pub fn logr_pool(&self) -> (r: &StringPool)
        ensures
            *r == self.logradouros(),
            self.wf() ==> r.wf(),
    {
        &self.logr_pool
    }

    /// O tokenizador de n-gramas.
    pub fn tokenizer(&self) -> (r: &NgramTokenizer)
        ensures
            *r == self.tokenizador(),
            self.wf() ==> r.wf(),
    {
        &self.tokenizer
    }

    /// O mapa de (id do município, id do estado) para a posição do índice.
    pub fn mapa_municipios(&self) -> (r: &FxHashMap<(u32, u32), u32>)
        ensures
            conteudo_par_u32(*r) == self.chaves(),
    {
        &self.municipios
    }

    /// Os índices dos municípios, na ordem das posições.
    pub fn lista_indices(&self) -> (r: &Vec<IndiceMunicipio>)
        ensures
            r@.map_values(|i: IndiceMunicipio| i@) == self.indices(),
    {
        &self.indices
    }

    /// O índice do município de chave (id do município, id do estado), se houver.
    pub fn indice_municipio(&self, chave: (u32, u32)) -> (r: Option<&IndiceMunicipio>)
        requires
            self.wf(),
        ensures
            match r {
                Some(m) => {
                    &&& self.chaves().contains_key(chave)
                    &&& m@ == self.indices()[self.chaves()[chave] as int]
                    &&& self.pronto() ==> m.pronto()
                },
                None => !self.chaves().contains_key(chave),
            },
    {
        match par_u32_obter(&self.municipios, chave) {
            Some(pos) => {
                assert(self.chaves().contains_key(chave));
                assert(pos < self.indices@.len());
                let m = &self.indices[pos as usize];
                assert(self.indices()[pos as int] == self.indices@[pos as int]@);
                Some(m)
            },
            None => None,
        }
    }

    /// Reconstrói os índices inversos dos pools de localidades, municípios e
    /// estados (necessário depois de carregar um índice salvo).
    pub fn preparar_pools(&mut self)
        requires
            old(self).wf(),
        ensures
            final(self).wf(),
            old(self).pode_finalizar() ==> final(self).pode_finalizar(),
            old(self).pronto() ==> final(self).pronto(),
            final(self).localidades().textos() == old(self).localidades().textos(),
            final(self).localidades().indice() == indice_completo(old(self).localidades().textos()),
            final(self).municipios_pool().textos() == old(self).municipios_pool().textos(),
            final(self).municipios_pool().indice() == indice_completo(
                old(self).municipios_pool().textos(),
            ),
            final(self).estados().textos() == old(self).estados().textos(),
            final(self).estados().indice() == indice_completo(old(self).estados().textos()),
            final(self).logradouros() == old(self).logradouros(),
            final(self).tokenizador() == old(self).tokenizador(),
            final(self).chaves() == old(self).chaves(),
            final(self).indices() == old(self).indices(),
    {
        self.loc_pool.popular_inverso();
        self.mun_pool.popular_inverso();
        self.est_pool.popular_inverso();
        assert(self.indices@ == old(self).indices@);
        assert(self.logr_pool == old(self).logr_pool);
        assert(self.loc_pool.wf());
        assert(self.mun_pool.wf());
        assert(self.est_pool.wf());
        assert(self.logr_pool.wf());
        assert(self.tokenizer.wf());
        assert(self.chaves() == old(self).chaves());
        assert forall|i: int| 0 <= i < self.indices@.len() implies #[trigger] self.indices@[i].wf() && docs_validos(self.indices@[i]@, self.logr_pool.textos().len()) by {
            assert(old(self).indices@[i].wf());
        }
    }

    /// A posição do índice do município (padronizado) no estado (padronizado
    /// e trocado pela sigla), se houver.
    pub open spec fn posicao_municipio(&self, estado: Seq<char>, municipio: Seq<char>) -> Option<
        u32,
    > {
        let mun = padronizar_modelo(municipio);
        let est = sigla_modelo(padronizar_modelo(estado));
        if self.municipios_pool().indice().contains_key(mun) && self.estados().indice().contains_key(est) {
            let k = (self.municipios_pool().indice()[mun], self.estados().indice()[est]);
            if self.chaves().contains_key(k) {
                Some(self.chaves()[k])
            } else {
                None
            }
        } else {
            None
        }
    }

    /// Os logradouros permitidos pelos filtros de localidade e de CEP: a
    /// lista de cada filtro informado e conhecido, ou a interseção das duas;
    /// `None` quando nenhum filtro se aplica.
    pub open spec fn filtro(&self, m: ModeloIndice, localidade: Option<&str>, cep: Option<&str>) -> Option<
        Seq<u32>,
    > {
        let ids_ceps = match cep {
            Some(c) => match cep_modelo(c@) {
                Some(x) => if m.ceps.contains_key(x) {
                    Some(m.ceps[x])
                } else {
                    None
                },
                None => None,
            },
            None => None,
        };
        let ids_loc = match localidade {
            Some(l) => {
                let p = padronizar_modelo(l@);
                if self.localidades().indice().contains_key(p) && m.localidades.contains_key(
                    self.localidades().indice()[p],
                ) {
                    Some(m.localidades[self.localidades().indice()[p]])
                } else {
                    None
                }
            },
            None => None,
        };
        match (ids_ceps, ids_loc) {
            (Some(a), Some(b)) => Some(intersecao(a, b)),
            (Some(a), None) => Some(a),
            (None, Some(b)) => Some(b),
            (None, None) => None,
        }
    }

    /// Os candidatos a pontuar e o logradouro padronizado; `None` se o
    /// município não existe ou se os filtros não deixam nenhum logradouro.
    /// Com poucos logradouros permitidos (até `min_qnt_index_scan`) são todos
    /// candidatos; senão, os achados pelo índice invertido com os tokens
    /// conhecidos do logradouro, restritos aos permitidos pelos filtros.
    pub open spec fn candidatos<F>(
        &self,
        estado: Seq<char>,
        municipio: Seq<char>,
        logradouro: Seq<char>,
        localidade: Option<&str>,
        cep: Option<&str>,
        params: SearchParams<F>,
    ) -> Option<(Seq<u32>, Seq<char>)> {
        match self.posicao_municipio(estado, municipio) {
            None => None,
            Some(pos) => {
                let m = self.indices()[pos as int];
                let f = self.filtro(m, localidade, cep);
                if f matches Some(v) && v.len() == 0 {
                    None
                } else {
                    let logr = padronizar_modelo(logradouro);
                    let permitidos = match f {
                        Some(v) => v,
                        None => m.docs,
                    };
                    if params.min_qnt_index_scan matches Some(q) && q >= permitidos.len() {
                        Some((permitidos, logr))
                    } else {
                        let query = self.query_de(logradouro);
                        let achados = buscar_modelo(
                            m.baldes,
                            m.docs,
                            query,
                            params.sobreposicao_min_tokens,
                            params.max_df_freq,
                        );
                        match f {
                            None => Some((achados, logr)),
                            Some(v) => Some((filtrar_docs(achados, v), logr)),
                        }
                    }
                }
            },
        }
    }

    /// A query da busca pelo índice invertido: os tokens conhecidos dos
    /// n-gramas do logradouro padronizado.
    pub open spec fn query_de(&self, logradouro: Seq<char>) -> Seq<u16> {
        tokens_conhecidos(
            ngramas(encode_utf8(padronizar_modelo(logradouro)), self.tokenizador().ngram_size as nat),
            self.tokenizador().tokens(),
        )
    }

    /// A busca consulta o índice invertido: o município existe, os filtros
    /// deixam algum logradouro e os permitidos são mais do que
    /// `min_qnt_index_scan` (se houver).
    pub open spec fn usa_indice<F>(
        &self,
        estado: Seq<char>,
        municipio: Seq<char>,
        localidade: Option<&str>,
        cep: Option<&str>,
        params: SearchParams<F>,
    ) -> bool {
        match self.posicao_municipio(estado, municipio) {
            None => false,
            Some(pos) => {
                let m = self.indices()[pos as int];
                let f = self.filtro(m, localidade, cep);
                let permitidos = match f {
                    Some(v) => v,
                    None => m.docs,
                };
                &&& !(f matches Some(v) && v.len() == 0)
                &&& !(params.min_qnt_index_scan matches Some(q) && q >= permitidos.len())
            },
        }
    }

    /// Numa busca sem filtros que percorre todos os logradouros do município
    /// (`min_qnt_index_scan` de pelo menos o seu número), os candidatos são
    /// todos os logradouros registrados no município; com `add` e
    /// `finalizar`, todo logradouro registrado num município é candidato.
    pub proof fn lei_candidatos_por_varredura<F>(
        &self,
        estado: Seq<char>,
        municipio: Seq<char>,
        logradouro: Seq<char>,
        params: SearchParams<F>,
    )
        requires
            self.posicao_municipio(estado, municipio) is Some,
            params.min_qnt_index_scan matches Some(q) && q >= self.indices()[self.posicao_municipio(
                estado,
                municipio,
            ).unwrap() as int].docs.len(),
        ensures
            self.candidatos(estado, municipio, logradouro, None, None, params) == Some(
                (
                    self.indices()[self.posicao_municipio(estado, municipio).unwrap() as int].docs,
                    padronizar_modelo(logradouro),
                ),
            ),
    {
    }

    /// Os ids de logradouros permitidos pelos filtros de localidade e de CEP
    /// de um município; `None` quando nenhum filtro se aplica.
    pub fn obter_ids_validos(
        &self,
        localidade: Option<&str>,
        cep: Option<&str>,
        indice_municipio: &IndiceMunicipio,
    ) -> (r: Option<Vec<u32>>)
        requires
            self.wf(),
        ensures
            match r {
                Some(v) => self.filtro(indice_municipio@, localidade, cep) == Some(v@) && (
                indice_municipio.pronto() ==> ordenada(v@)),
                None => self.filtro(indice_municipio@, localidade, cep) is None,
            },
    {
        let ids_ceps: Option<&Vec<u32>> = match cep {
            Some(c) => match cep_para_numero(c) {
                Some(x) => u32_lista_obter(&indice_municipio.por_cep, x),
                None => None,
            },
            None => None,
        };
        let ids_localidades: Option<&Vec<u32>> = match localidade {
            Some(l) => {
                let p = padronizar_bairros(l);
                match self.loc_pool.get_str(p.as_str()) {
                    Some(id) => u32_lista_obter(&indice_municipio.por_localidade, id),
                    None => None,
                }
            },
            None => None,
        };
        proof {
            if ids_ceps is Some {
                assert(indice_municipio@.ceps.contains_key(cep_modelo(cep.unwrap()@).unwrap()));
            }
            if ids_localidades is Some {
                let p = padronizar_modelo(localidade.unwrap()@);
                assert(indice_municipio@.localidades.contains_key(self.loc_pool.indice()[p]));
            }
        }
        match (ids_ceps, ids_localidades) {
            (Some(a), Some(b)) => {
                proof {
                    if indice_municipio.pronto() {
                        lema_intersecao_ordenada(a@, b@);
                    }
                }
                Some(intersect_sorted(a.as_slice(), b.as_slice()))
            },
            (Some(a), None) => Some(a.clone()),
            (None, Some(b)) => Some(b.clone()),
            (None, None) => None,
        }
    }

    /// A resposta para o documento `doc_id`, com a sua similaridade com
    /// `logradouro`, se ela alcança o mínimo.
    fn score_doc<F: Fn(&str, &str) -> u32>(
        &self,
        logradouro: &str,
        doc_id: Doc,
        params: &SearchParams<F>,
    ) -> (r: Option<ScoredDoc<'_>>)
        requires
            self.wf(),
            doc_id < self.logradouros().textos().len(),
            forall|a: &str, b: &str| call_requires(params.similaridade_fun, (a, b)),
        ensures
            exists|x: u32|
                #[trigger] pontua(
                    params.similaridade_fun,
                    logradouro@,
                    self.logradouros().textos()[doc_id as int],
                    x,
                ) && nota_do_doc(
                    r,
                    x,
                    doc_id,
                    similaridade_minima(params.similaridade_min),
                    self.logradouros().textos(),
                ),
    {
        let doc = self.logr_pool.get(doc_id);
        let sim = (params.similaridade_fun)(logradouro, doc);
        let min_sim: u32 = match params.similaridade_min {
            Some(m) => m,
            None => 0,
        };
        let r = if sim >= min_sim {
            Some(ScoredDoc { texto: doc, score: sim, doc: doc_id })
        } else {
            None
        };
        assert(pontua(params.similaridade_fun, logradouro@, self.logradouros().textos()[doc_id as int], sim));
        assert(nota_do_doc(r, sim, doc_id, similaridade_minima(params.similaridade_min), self.logradouros().textos()));
        r
    }

    /// O melhor candidato: a maior similaridade a partir do mínimo,
    /// desempatando pelo maior id.
    fn melhor_candidato<F: Fn(&str, &str) -> u32>(
        &self,
        logradouro: &str,
        candidatos: &Vec<u32>,
        params: &SearchParams<F>,
    ) -> (r: Option<ScoredDoc<'_>>)
        requires
            self.wf(),
            forall|i: int| 0 <= i < candidatos@.len() ==> #[trigger] candidatos@[i] < self.logradouros().textos().len(),
            forall|a: &str, b: &str| call_requires(params.similaridade_fun, (a, b)),
        ensures
            exists|sims: Seq<u32>|
                #[trigger] resposta_com_sims(
                    r,
                    candidatos@,
                    logradouro@,
                    self.logradouros().textos(),
                    params.similaridade_fun,
                    similaridade_minima(params.similaridade_min),
                    sims,
                ),
    {
        let min_sim: u32 = match params.similaridade_min {
            Some(m) => m,
            None => 0,
        };
        let ghost textos = self.logradouros().textos();
        let ghost mut sims: Seq<u32> = Seq::empty();
        let mut melhor: Option<ScoredDoc<'_>> = None;
        let mut i: usize = 0;
        while i < candidatos.len()
            invariant
                i <= candidatos@.len(),
                self.wf(),
                textos == self.logradouros().textos(),
                min_sim == similaridade_minima(params.similaridade_min),
                forall|k: int| 0 <= k < candidatos@.len() ==> #[trigger] candidatos@[k] < textos.len(),
                forall|a: &str, b: &str| call_requires(params.similaridade_fun, (a, b)),
                sims.len() == i,
                forall|k: int|
                    0 <= k < i ==> #[trigger] pontua(
                        params.similaridade_fun,
                        logradouro@,
                        textos[candidatos@[k] as int],
                        sims[k],
                    ),
                corresponde(melhor, melhor_modelo(candidatos@.take(i as int), sims, min_sim), textos),
            decreases candidatos@.len() - i,
        {
            let doc_id = candidatos[i];
            let atual = self.score_doc(logradouro, doc_id, params);
            assert(exists|x: u32|
                #[trigger] pontua(params.similaridade_fun, logradouro@, textos[doc_id as int], x)
                    && nota_do_doc(atual, x, doc_id, min_sim, textos));
            let ghost sim = choose|x: u32|
                #[trigger] pontua(params.similaridade_fun, logradouro@, textos[doc_id as int], x)
                    && nota_do_doc(atual, x, doc_id, min_sim, textos);
            let ghost sims0 = sims;
            proof {
                sims = sims.push(sim);
                assert(candidatos@.take(i + 1).drop_last() =~= candidatos@.take(i as int));
                assert(sims.take(i as int) =~= sims0);
                assert(candidatos@.take(i + 1).last() == doc_id);
            }
            match atual {
                Some(sd) => match melhor {
                    None => {
                        melhor = Some(sd);
                    },
                    Some(b) => {
                        if sd.score > b.score || (sd.score == b.score && sd.doc >= b.doc) {
                            melhor = Some(sd);
                        }
                    },
                },
                None => {},
            }
            i += 1;
        }
        assert(candidatos@.take(candidatos@.len() as int) =~= candidatos@);
        assert(min_sim == similaridade_minima(params.similaridade_min));
        assert(resposta_com_sims(melhor, candidatos@, logradouro@, textos, params.similaridade_fun, min_sim, sims));
        melhor
    }

    /// Quantos tokens tem a query de `logradouro` para o índice invertido.
    pub fn tamanho_query(&self, logradouro: &str) -> (r: usize)
        requires
            self.wf(),
            ngramas_cabem(
                encode_utf8(padronizar_modelo(logradouro@)),
                self.tokenizador().ngram_size as nat,
            ),
        ensures
            r == self.query_de(logradouro@).len(),
    {
        let logr = padronizar_logradouros(logradouro);
        let logr_str = logr.as_str();
        proof {
            lema_ascii_janelas(logr@, self.tokenizer.ngram_size as nat);
            vstd::utf8::is_ascii_chars_encode_utf8(logr@);
            assert(logr_str.spec_bytes() == encode_utf8(logr@));
        }
        let query = self.tokenizer.tokenize_search(logr_str);
        query.len()
    }

    /// Se `busca` com estes argumentos consulta o índice invertido; só então
    /// a query do logradouro precisa ter até 65536 tokens.
    pub fn busca_usa_indice<F: Fn(&str, &str) -> u32>(
        &self,
        estado: &str,
        municipio: &str,
        localidade: Option<&str>,
        cep: Option<&str>,
        params: &SearchParams<F>,
    ) -> (r: bool)
        requires
            self.wf(),
            self.pronto(),
        ensures
            r == self.usa_indice(estado@, municipio@, localidade, cep, *params),
    {
        let mun = padronizar_municipios(municipio);
        let mun_id = match self.mun_pool.get_str(mun.as_str()) {
            Some(x) => x,
            None => {
                return false;
            },
        };
        let est = padronizar_estados_para_sigla(estado);
        let est_id = match self.est_pool.get_str(est.as_str()) {
            Some(x) => x,
            None => {
                return false;
            },
        };
        let pos = match par_u32_obter(&self.municipios, (mun_id, est_id)) {
            Some(p) => p,
            None => {
                return false;
            },
        };
        assert(self.chaves().contains_key((mun_id, est_id)));
        let indice_municipio = &self.indices[pos as usize];
        assert(self.indices@[pos as int] == *indice_municipio);
        let ghost m = indice_municipio@;
        let ids_filtro = self.obter_ids_validos(localidade, cep, indice_municipio);
        let permitidos: usize = match &ids_filtro {
            Some(v) => {
                if v.len() == 0 {
                    return false;
                }
                v.len()
            },
            None => indice_municipio.idx_logradouro.docs.len(),
        };
        proof {
            assert(self.posicao_municipio(estado@, municipio@) == Some(pos));
            assert(self.indices()[pos as int] == m);
        }
        match params.min_qnt_index_scan {
            Some(q) => q < permitidos,
            None => true,
        }
    }

    /// Busca, no município do estado dados, o logradouro mais parecido com
    /// `logradouro`, respeitando os filtros de localidade e CEP informados.
    /// Quando a busca consulta o índice invertido (`usa_indice`), a query
    /// (`query_de`) tem de ter até 65536 tokens: com mais, o seu tamanho não
    /// cabe nas contagens de 16 bits (e a posição do último n-grama tem de
    /// caber em `usize`).
    pub fn busca<F: Fn(&str, &str) -> u32>(
        &self,
        estado: &str,
        municipio: &str,
        logradouro: &str,
        localidade: Option<&str>,
        cep: Option<&str>,
        params: &SearchParams<F>,
    ) -> (r: Option<ScoredDoc<'_>>)
        requires
            self.wf(),
            self.pronto(),
            self.usa_indice(estado@, municipio@, localidade, cep, *params) ==> ngramas_cabem(
                encode_utf8(padronizar_modelo(logradouro@)),
                self.tokenizador().ngram_size as nat,
            ) && self.query_de(logradouro@).len() <= 0x10000,
            forall|a: &str, b: &str| call_requires(params.similaridade_fun, (a, b)),
        ensures
            r matches Some(sd) ==> (self.posicao_municipio(estado@, municipio@) matches Some(pos)
                && (listas_indexadas(self.indices()[pos as int]) ==> self.indices()[
                pos as int].docs.contains(sd.doc))),
            match self.candidatos(estado@, municipio@, logradouro@, localidade, cep, *params) {
                None => r is None,
                Some((cands, logr)) => exists|sims: Seq<u32>|
                    #[trigger] resposta_com_sims(
                        r,
                        cands,
                        logr,
                        self.logradouros().textos(),
                        params.similaridade_fun,
                        similaridade_minima(params.similaridade_min),
                        sims,
                    ),
            },
    {
        let mun = padronizar_municipios(municipio);
        let mun_id = match self.mun_pool.get_str(mun.as_str()) {
            Some(x) => x,
            None => {
                return None;
            },
        };
        let est = padronizar_estados_para_sigla(estado);
        let est_id = match self.est_pool.get_str(est.as_str()) {
            Some(x) => x,
            None => {
                return None;
            },
        };
        let pos = match par_u32_obter(&self.municipios, (mun_id, est_id)) {
            Some(p) => p,
            None => {
                return None;
            },
        };
        let ghost n = self.logr_pool.textos().len();
        assert(self.chaves().contains_key((mun_id, est_id)));
        let indice_municipio = &self.indices[pos as usize];
        assert(indice_municipio.pronto());
        assert(self.indices@[pos as int] == *indice_municipio);
        assert(self.indices@[pos as int].wf());
        assert(docs_validos(self.indices@[pos as int]@, n));
        let ghost m = indice_municipio@;
        let ids_filtro = self.obter_ids_validos(localidade, cep, indice_municipio);
        match &ids_filtro {
            Some(v) => {
                if v.len() == 0 {
                    return None;
                }
            },
            None => {},
        }
        let logr = padronizar_logradouros(logradouro);
        let ids_slice: &Vec<u32> = match &ids_filtro {
            Some(v) => v,
            None => &indice_municipio.idx_logradouro.docs,
        };
        proof {
            self.lema_filtro_valido(m, localidade, cep, n);
            if listas_indexadas(m) {
                self.lema_filtro_indexado(m, localidade, cep);
            }
            assert(self.posicao_municipio(estado@, municipio@) == Some(pos));
            assert(self.indices()[pos as int] == m);
            if ids_filtro is Some {
                assert(self.filtro(m, localidade, cep) == Some(ids_filtro.unwrap()@));
            } else {
                assert(self.filtro(m, localidade, cep) is None);
            }
            assert forall|k: int| 0 <= k < ids_slice@.len() && (listas_indexadas(m) || ids_filtro is None)
                implies m.docs.contains(#[trigger] ids_slice@[k]) by {
                if ids_filtro is None {
                    assert(m.docs[k] == ids_slice@[k]);
                }
            }
        }
        let sequencial = match params.min_qnt_index_scan {
            Some(q) => q >= ids_slice.len(),
            None => false,
        };
        let candidatos: Vec<u32> = if sequencial {
            ids_slice.clone()
        } else {
            let logr_str = logr.as_str();
            proof {
                assert(self.usa_indice(estado@, municipio@, localidade, cep, *params));
                lema_ascii_janelas(logr@, self.tokenizer.ngram_size as nat);
                vstd::utf8::is_ascii_chars_encode_utf8(logr@);
                assert(logr_str.spec_bytes() == encode_utf8(logr@));
            }
            let query = self.tokenizer.tokenize_search(logr_str);
            assert(query@ == self.query_de(logradouro@));
            let mut it = indice_municipio.idx_logradouro.buscar(
                query.as_slice(),
                params.sobreposicao_min_tokens,
                params.max_df_freq,
            );
            let ghost docs_it = it.docs_externos();
            let achados = it.coletar();
            proof {
                assert forall|k: int| 0 <= k < achados@.len() implies #[trigger] achados@[k] < n
                    && m.docs.contains(achados@[k]) by {
                    assert(docs_it.contains(achados@[k]));
                    if docs_it == m.docs {
                        let w = choose|w: int| 0 <= w < m.docs.len() && m.docs[w] == achados@[k];
                        assert(m.docs[w] < n);
                    }
                }
            }
            match &ids_filtro {
                None => achados,
                Some(v) => {
                    let mut filtrados: Vec<u32> = Vec::new();
                    let mut j: usize = 0;
                    while j < achados.len()
                        invariant
                            j <= achados@.len(),
                            ordenada(v@),
                            filtrados@ == filtrar_docs(achados@.take(j as int), v@),
                            forall|k: int| 0 <= k < filtrados@.len() ==> #[trigger] filtrados@[k] < n
                                && m.docs.contains(filtrados@[k]),
                            forall|k: int| 0 <= k < achados@.len() ==> #[trigger] achados@[k] < n
                                && m.docs.contains(achados@[k]),
                        decreases achados@.len() - j,
                    {
                        let d = achados[j];
                        assert(achados@.take(j + 1).drop_last() =~= achados@.take(j as int));
                        assert(achados@.take(j + 1).last() == d);
                        if contem_ordenado(v.as_slice(), d) {
                            filtrados.push(d);
                        }
                        j += 1;
                    }
                    assert(achados@.take(achados@.len() as int) =~= achados@);
                    filtrados
                },
            }
        };
        proof {
            assert(self.posicao_municipio(estado@, municipio@) == Some(pos));
            assert(self.indices()[pos as int] == m);
            if ids_filtro is Some {
                assert(self.filtro(m, localidade, cep) == Some(ids_filtro.unwrap()@));
            } else {
                assert(self.filtro(m, localidade, cep) is None);
            }
            assert(self.candidatos(estado@, municipio@, logradouro@, localidade, cep, *params) == Some((candidatos@, logr@)));
        }
        assert(listas_indexadas(m) ==> forall|k: int|
            0 <= k < candidatos@.len() ==> m.docs.contains(#[trigger] candidatos@[k]));
        let logr_final = logr.as_str();
        assert(logr_final@ == logr@);
        let r = self.melhor_candidato(logr_final, &candidatos, params);
        proof {
            let sims = choose|sims: Seq<u32>|
                resposta_com_sims(
                    r,
                    candidatos@,
                    logr_final@,
                    self.logradouros().textos(),
                    params.similaridade_fun,
                    similaridade_minima(params.similaridade_min),
                    sims,
                );
            assert(resposta_com_sims(
                r,
                candidatos@,
                logr@,
                self.logradouros().textos(),
                params.similaridade_fun,
                similaridade_minima(params.similaridade_min),
                sims,
            ));
            lei_melhor_modelo(candidatos@, sims, similaridade_minima(params.similaridade_min));
            if r is Some && listas_indexadas(m) {
                let sd = r.unwrap();
                let i = choose|i: int| 0 <= i < candidatos@.len() && candidatos@[i] == sd.doc
                    && #[trigger] sims[i] == sd.score;
                assert(m.docs.contains(candidatos@[i]));
            }
            let c = self.candidatos(estado@, municipio@, logradouro@, localidade, cep, *params);
            assert(c == Some((candidatos@, logr@)));
            assert(c matches Some((cands, lg)) && cands == candidatos@ && lg == logr@);
            assert(match c {
                None => r is None,
                Some((cands, lg)) => exists|sims: Seq<u32>|
                    #[trigger] resposta_com_sims(
                        r,
                        cands,
                        lg,
                        self.logradouros().textos(),
                        params.similaridade_fun,
                        similaridade_minima(params.similaridade_min),
                        sims,
                    ),
            });
        }
        r
    }

    proof fn lema_filtro_indexado(&self, m: ModeloIndice, localidade: Option<&str>, cep: Option<&str>)
        requires
            listas_indexadas(m),
        ensures
            self.filtro(m, localidade, cep) matches Some(v) ==> forall|k: int|
                0 <= k < v.len() ==> m.docs.contains(#[trigger] v[k]),
    {
        if let Some(v) = self.filtro(m, localidade, cep) {
            assert forall|k: int| 0 <= k < v.len() implies m.docs.contains(#[trigger] v[k]) by {
                let ids_ceps = match cep {
                    Some(c) => match cep_modelo(c@) {
                        Some(x) => if m.ceps.contains_key(x) { Some(x) } else { None },
                        None => None,
                    },
                    None => None,
                };
                let ids_loc = match localidade {
                    Some(l) => {
                        let p = padronizar_modelo(l@);
                        if self.loc_pool.indice().contains_key(p) && m.localidades.contains_key(self.loc_pool.indice()[p]) {
                            Some(self.loc_pool.indice()[p])
                        } else {
                            None
                        }
                    },
                    None => None,
                };
                match (ids_ceps, ids_loc) {
                    (Some(a), Some(b)) => {
                        lema_intersecao_contida(m.ceps[a], m.localidades[b], v[k]);
                        assert(v.contains(v[k]));
                        let w = choose|w: int| 0 <= w < m.ceps[a].len() && m.ceps[a][w] == v[k];
                        assert(m.docs.contains(m.ceps[a][w]));
                    },
                    (Some(a), None) => {
                        assert(m.docs.contains(m.ceps[a][k]));
                    },
                    (None, Some(b)) => {
                        assert(m.docs.contains(m.localidades[b][k]));
                    },
                    (None, None) => {},
                }
            }
        }
    }

    proof fn lema_filtro_valido(&self, m: ModeloIndice, localidade: Option<&str>, cep: Option<&str>, n: nat)
        requires
            docs_validos(m, n),
        ensures
            self.filtro(m, localidade, cep) matches Some(v) ==> forall|k: int|
                0 <= k < v.len() ==> #[trigger] v[k] < n,
    {
        if let Some(v) = self.filtro(m, localidade, cep) {
            assert forall|k: int| 0 <= k < v.len() implies #[trigger] v[k] < n by {
                let ids_ceps = match cep {
                    Some(c) => match cep_modelo(c@) {
                        Some(x) => if m.ceps.contains_key(x) { Some(x) } else { None },
                        None => None,
                    },
                    None => None,
                };
                let ids_loc = match localidade {
                    Some(l) => {
                        let p = padronizar_modelo(l@);
                        if self.loc_pool.indice().contains_key(p) && m.localidades.contains_key(self.loc_pool.indice()[p]) {
                            Some(self.loc_pool.indice()[p])
                        } else {
                            None
                        }
                    },
                    None => None,
                };
                match (ids_ceps, ids_loc) {
                    (Some(a), Some(b)) => {
                        lema_intersecao_contida(m.ceps[a], m.localidades[b], v[k]);
                        assert(v.contains(v[k]));
                        let w = choose|w: int| 0 <= w < m.ceps[a].len() && m.ceps[a][w] == v[k];
                        assert(m.ceps[a][w] < n);
                    },
                    (Some(a), None) => {
                        assert(m.ceps[a][k] < n);
                    },
                    (None, Some(b)) => {
                        assert(m.localidades[b][k] < n);
                    },
                    (None, None) => {},
                }
            }
        }
    }
}

// Partes de um indexador, para salvá-lo e carregá-lo.

/// As partes de um índice de município, em listas: as listas por CEP e por
/// localidade, as listas de ids internos por token, os pares (documento, id
/// interno) e os documentos em ordem de id interno.
pub struct PartesMunicipio {
    pub por_cep: Vec<(u32, Vec<Doc>)>,
    pub por_localidade: Vec<(u32, Vec<Doc>)>,
    pub baldes: Vec<(u16, Vec<u16>)>,
    pub ids: Vec<(Doc, u16)>,
    pub docs: Vec<Doc>,
}

/// As partes de um pool de textos: o blob e o intervalo de cada texto.
pub struct PartesPool {
    pub blob: Vec<u8>,
    pub offsets: Vec<(u32, u32)>,
}

/// O mapa formado pelas entradas (chave, lista), em ordem: uma chave
/// repetida substitui a anterior.
pub open spec fn mapa_listas_u32(e: Seq<(u32, Vec<u32>)>) -> Map<u32, Seq<u32>>
    decreases e.len(),
{
    if e.len() == 0 {
        Map::empty()
    } else {
        mapa_listas_u32(e.drop_last()).insert(e.last().0, e.last().1@)
    }
}

/// O mapa formado pelas entradas (token, lista), em ordem.
pub open spec fn mapa_listas_u16(e: Seq<(u16, Vec<u16>)>) -> Map<u16, Seq<u16>>
    decreases e.len(),
{
    if e.len() == 0 {
        Map::empty()
    } else {
        mapa_listas_u16(e.drop_last()).insert(e.last().0, e.last().1@)
    }
}

/// O mapa formado pelos pares (documento, id interno), em ordem.
pub open spec fn mapa_ids(e: Seq<(u32, u16)>) -> Map<u32, u16>
    decreases e.len(),
{
    if e.len() == 0 {
        Map::empty()
    } else {
        mapa_ids(e.drop_last()).insert(e.last().0, e.last().1)
    }
}

/// As partes de um indexador: os quatro pools, os índices dos municípios
/// com as suas chaves (município, estado), e o tamanho dos n-gramas com o
/// mapa de tokens.
pub struct PartesIndexador {
    pub localidades: PartesPool,
    pub municipios_pool: PartesPool,
    pub estados: PartesPool,
    pub logradouros: PartesPool,
    pub municipios: Vec<((u32, u32), PartesMunicipio)>,
    pub ngram_size: usize,
    pub tokens: Vec<(String, u16)>,
}

/// Partes que formam um indexador pronto para a busca: pools válidos e
/// índices de município válidos para os logradouros do pool.
pub open spec fn partes_indexador_validas(p: PartesIndexador) -> bool {
    &&& partes_validas(p.localidades.blob@, p.localidades.offsets@)
    &&& partes_validas(p.municipios_pool.blob@, p.municipios_pool.offsets@)
    &&& partes_validas(p.estados.blob@, p.estados.offsets@)
    &&& partes_validas(p.logradouros.blob@, p.logradouros.offsets@)
    &&& p.municipios@.len() <= u32::MAX
    &&& forall|i: int|
        0 <= i < p.municipios@.len() ==> partes_municipio_validas(
            #[trigger] p.municipios@[i].1,
            p.logradouros.offsets@.len(),
        )
}

/// De cada chave (município, estado) para a posição da sua última entrada.
pub open spec fn mapa_posicoes(e: Seq<((u32, u32), PartesMunicipio)>) -> Map<(u32, u32), u32>
    decreases e.len(),
{
    if e.len() == 0 {
        Map::empty()
    } else {
        mapa_posicoes(e.drop_last()).insert(e.last().0, (e.len() - 1) as u32)
    }
}

/// Uma lista de logradouros ordenada, só com ids menores que `n`.
pub open spec fn lista_valida(v: Seq<u32>, n: nat) -> bool {
    &&& ordenada(v)
    &&& forall|k: int| 0 <= k < v.len() ==> #[trigger] v[k] < n
}

/// Uma lista de ids internos menores que `n`.
pub open spec fn lista_interna_valida(v: Seq<u16>, n: nat) -> bool {
    forall|k: int| 0 <= k < v.len() ==> #[trigger] v[k] < n
}

/// Partes que formam um índice de município pronto para a busca, com
/// logradouros de ids menores que `n`.
pub open spec fn partes_municipio_validas(p: PartesMunicipio, n: nat) -> bool {
    &&& forall|i: int|
        0 <= i < p.por_cep@.len() ==> lista_valida(#[trigger] p.por_cep@[i].1@, n)
    &&& forall|i: int|
        0 <= i < p.por_localidade@.len() ==> lista_valida(#[trigger] p.por_localidade@[i].1@, n)
    &&& forall|i: int|
        0 <= i < p.baldes@.len() ==> lista_interna_valida(#[trigger] p.baldes@[i].1@, p.docs@.len())
    &&& forall|i: int| 0 <= i < p.ids@.len() ==> #[trigger] p.ids@[i].0 < n
    &&& forall|i: int| 0 <= i < p.docs@.len() ==> #[trigger] p.docs@[i] < n
}

/// O conteúdo do índice de município formado pelas partes.
pub open spec fn modelo_de_partes(p: PartesMunicipio) -> ModeloIndice {
    ModeloIndice {
        ceps: mapa_listas_u32(p.por_cep@),
        localidades: mapa_listas_u32(p.por_localidade@),
        baldes: mapa_listas_u16(p.baldes@),
        ids: mapa_ids(p.ids@),
        docs: p.docs@,
    }
}

/// `v` é ordenada e só tem ids menores que `n`.
fn verificar_lista(v: &Vec<u32>, n: usize) -> (r: bool)
    ensures
        r == lista_valida(v@, n as nat),
{
    let mut j: usize = 0;
    while j < v.len()
        invariant
            j <= v@.len(),
            forall|a: int, b: int| 0 <= a <= b < j ==> v@[a] <= v@[b],
            forall|k: int| 0 <= k < j ==> #[trigger] v@[k] < n,
        decreases v@.len() - j,
    {
        if v[j] as usize >= n {
            return false;
        }
        if j > 0 && v[j - 1] > v[j] {
            return false;
        }
        j += 1;
    }
    true
}

/// `v` só tem ids internos menores que `n`.
fn verificar_lista_interna(v: &Vec<u16>, n: usize) -> (r: bool)
    ensures
        r == lista_interna_valida(v@, n as nat),
{
    let mut j: usize = 0;
    while j < v.len()
        invariant
            j <= v@.len(),
            forall|k: int| 0 <= k < j ==> #[trigger] v@[k] < n,
        decreases v@.len() - j,
    {
        if v[j] as usize >= n {
            return false;
        }
        j += 1;
    }
    true
}

/// O mapa das entradas (chave, lista), se todas as listas são válidas.
fn montar_listas(e: &Vec<(u32, Vec<u32>)>, n: usize) -> (r: Option<FxHashMap<u32, Vec<u32>>>)
    ensures
        r is Some <==> forall|i: int|
            0 <= i < e@.len() ==> lista_valida(#[trigger] e@[i].1@, n as nat),
        r matches Some(m) ==> {
            &&& conteudo_u32_lista(m) == mapa_listas_u32(e@)
            &&& conteudo_u32_lista(m).dom().finite()
        },
{
    let mut m = u32_lista_novo();
    let mut i: usize = 0;
    while i < e.len()
        invariant
            i <= e@.len(),
            conteudo_u32_lista(m) == mapa_listas_u32(e@.take(i as int)),
            conteudo_u32_lista(m).dom().finite(),
            forall|k: int| 0 <= k < i ==> lista_valida(#[trigger] e@[k].1@, n as nat),
        decreases e@.len() - i,
    {
        if !verificar_lista(&e[i].1, n) {
            return None;
        }
        let v = e[i].1.clone();
        assert(v@ =~= e@[i as int].1@);
        assert(e@.take(i + 1).drop_last() =~= e@.take(i as int));
        u32_lista_inserir(&mut m, e[i].0, v);
        i += 1;
    }
    assert(e@.take(e@.len() as int) =~= e@);
    Some(m)
}

/// O mapa das entradas (token, lista), se todas as listas são válidas.
fn montar_baldes(e: &Vec<(u16, Vec<u16>)>, n: usize) -> (r: Option<FxHashMap<u16, Vec<u16>>>)
    ensures
        r is Some <==> forall|i: int|
            0 <= i < e@.len() ==> lista_interna_valida(#[trigger] e@[i].1@, n as nat),
        r matches Some(m) ==> {
            &&& conteudo_u16_lista(m) == mapa_listas_u16(e@)
            &&& conteudo_u16_lista(m).dom().finite()
        },
{
    let mut m = u16_lista_novo();
    let mut i: usize = 0;
    while i < e.len()
        invariant
            i <= e@.len(),
            conteudo_u16_lista(m) == mapa_listas_u16(e@.take(i as int)),
            conteudo_u16_lista(m).dom().finite(),
            forall|k: int| 0 <= k < i ==> lista_interna_valida(#[trigger] e@[k].1@, n as nat),
        decreases e@.len() - i,
    {
        if !verificar_lista_interna(&e[i].1, n) {
            return None;
        }
        let v = e[i].1.clone();
        assert(v@ =~= e@[i as int].1@);
        assert(e@.take(i + 1).drop_last() =~= e@.take(i as int));
        u16_lista_inserir(&mut m, e[i].0, v);
        i += 1;
    }
    assert(e@.take(e@.len() as int) =~= e@);
    Some(m)
}

/// O mapa dos pares (documento, id interno), se todo documento é menor que `n`.
fn montar_ids(e: &Vec<(u32, u16)>, n: usize) -> (r: Option<FxHashMap<u32, u16>>)
    ensures
        r is Some <==> forall|i: int| 0 <= i < e@.len() ==> #[trigger] e@[i].0 < n,
        r matches Some(m) ==> {
            &&& conteudo_u32_u16(m) == mapa_ids(e@)
            &&& conteudo_u32_u16(m).dom().finite()
        },
{
    let mut m = u32_u16_novo();
    let mut i: usize = 0;
    while i < e.len()
        invariant
            i <= e@.len(),
            conteudo_u32_u16(m) == mapa_ids(e@.take(i as int)),
            conteudo_u32_u16(m).dom().finite(),
            forall|k: int| 0 <= k < i ==> #[trigger] e@[k].0 < n,
        decreases e@.len() - i,
    {
        if e[i].0 as usize >= n {
            return None;
        }
        assert(e@.take(i + 1).drop_last() =~= e@.take(i as int));
        u32_u16_inserir(&mut m, e[i].0, e[i].1);
        i += 1;
    }
    assert(e@.take(e@.len() as int) =~= e@);
    Some(m)
}

proof fn lema_listas_validas(e: Seq<(u32, Vec<u32>)>, n: nat)
    requires
        forall|i: int| 0 <= i < e.len() ==> lista_valida(#[trigger] e[i].1@, n),
    ensures
        forall|k: u32|
            #[trigger] mapa_listas_u32(e).contains_key(k) ==> lista_valida(mapa_listas_u32(e)[k], n),
    decreases e.len(),
{
    if e.len() > 0 {
        let e0 = e.drop_last();
        assert forall|i: int| 0 <= i < e0.len() implies lista_valida(#[trigger] e0[i].1@, n) by {
            assert(e0[i] == e[i]);
        }
        lema_listas_validas(e0, n);
        assert forall|k: u32| #[trigger] mapa_listas_u32(e).contains_key(k) implies lista_valida(mapa_listas_u32(e)[k], n) by {
            if k == e.last().0 {
                assert(lista_valida(e[e.len() - 1].1@, n));
            } else {
                assert(mapa_listas_u32(e0).contains_key(k));
            }
        }
    }
}

proof fn lema_baldes_validos(e: Seq<(u16, Vec<u16>)>, n: nat)
    requires
        forall|i: int| 0 <= i < e.len() ==> lista_interna_valida(#[trigger] e[i].1@, n),
    ensures
        forall|k: u16| #[trigger] mapa_listas_u16(e).contains_key(k) ==> lista_interna_valida(mapa_listas_u16(e)[k], n),
    decreases e.len(),
{
    if e.len() > 0 {
        let e0 = e.drop_last();
        assert forall|i: int| 0 <= i < e0.len() implies lista_interna_valida(#[trigger] e0[i].1@, n) by {
            assert(e0[i] == e[i]);
        }
        lema_baldes_validos(e0, n);
        assert forall|k: u16| #[trigger] mapa_listas_u16(e).contains_key(k) implies lista_interna_valida(mapa_listas_u16(e)[k], n) by {
            if k == e.last().0 {
                assert(lista_interna_valida(e[e.len() - 1].1@, n));
            } else {
                assert(mapa_listas_u16(e0).contains_key(k));
            }
        }
    }
}

proof fn lema_ids_validos(e: Seq<(u32, u16)>, n: nat)
    requires
        forall|i: int| 0 <= i < e.len() ==> #[trigger] e[i].0 < n,
    ensures
        forall|k: u32| #[trigger] mapa_ids(e).contains_key(k) ==> k < n,
    decreases e.len(),
{
    if e.len() > 0 {
        let e0 = e.drop_last();
        assert forall|i: int| 0 <= i < e0.len() implies #[trigger] e0[i].0 < n by {
            assert(e0[i] == e[i]);
        }
        lema_ids_validos(e0, n);
        assert forall|k: u32| #[trigger] mapa_ids(e).contains_key(k) implies k < n by {
            if k == e.last().0 {
                assert(e[e.len() - 1].0 < n);
            } else {
                assert(mapa_ids(e0).contains_key(k));
            }
        }
    }
}

/// Os índices dos municípios e o mapa das suas chaves para as posições, se
/// todas as partes são válidas para logradouros de ids menores que `n`.
fn montar_municipios(municipios: &Vec<((u32, u32), PartesMunicipio)>, n: usize) -> (r: Option<
    (FxHashMap<(u32, u32), u32>, Vec<IndiceMunicipio>),
>)
    ensures
        r is Some <==> {
            &&& municipios@.len() <= u32::MAX
            &&& forall|i: int|
                0 <= i < municipios@.len() ==> partes_municipio_validas(
                    #[trigger] municipios@[i].1,
                    n as nat,
                )
        },
        r matches Some((mapa, indices)) ==> {
            &&& conteudo_par_u32(mapa) == mapa_posicoes(municipios@)
            &&& conteudo_par_u32(mapa).dom().finite()
            &&& conteudo_par_u32(mapa).dom().len() <= indices@.len()
            &&& indices@.len() == municipios@.len()
            &&& forall|k: (u32, u32)|
                #[trigger] conteudo_par_u32(mapa).contains_key(k) ==> conteudo_par_u32(mapa)[k]
                    < indices@.len()
            &&& forall|j: int| 0 <= j < indices@.len() ==> #[trigger] indices@[j].wf()
            &&& forall|j: int| 0 <= j < indices@.len() ==> #[trigger] indices@[j].pronto()
            &&& forall|j: int| 0 <= j < indices@.len() ==> docs_validos(#[trigger] indices@[j]@, n as nat)
            &&& forall|j: int|
                0 <= j < indices@.len() ==> #[trigger] indices@[j]@ == modelo_de_partes(municipios@[j].1)
        },
{
    if municipios.len() > 0xffff_ffffusize {
        return None;
    }
    let mut mapa = par_u32_novo();
    let mut indices: Vec<IndiceMunicipio> = Vec::new();
    let mut i: usize = 0;
    while i < municipios.len()
        invariant
            i <= municipios@.len(),
            municipios@.len() <= u32::MAX,
            indices@.len() == i,
            conteudo_par_u32(mapa) == mapa_posicoes(municipios@.take(i as int)),
            conteudo_par_u32(mapa).dom().finite(),
            conteudo_par_u32(mapa).dom().len() <= i,
            forall|k: (u32, u32)|
                #[trigger] conteudo_par_u32(mapa).contains_key(k) ==> conteudo_par_u32(mapa)[k] < i,
            forall|j: int| 0 <= j < i ==> partes_municipio_validas(#[trigger] municipios@[j].1, n as nat),
            forall|j: int| 0 <= j < i ==> #[trigger] indices@[j].wf(),
            forall|j: int| 0 <= j < i ==> #[trigger] indices@[j].pronto(),
            forall|j: int| 0 <= j < i ==> docs_validos(#[trigger] indices@[j]@, n as nat),
            forall|j: int| 0 <= j < i ==> #[trigger] indices@[j]@ == modelo_de_partes(municipios@[j].1),
        decreases municipios@.len() - i,
    {
        let m = match IndiceMunicipio::de_partes(&municipios[i].1, n) {
            Some(m) => m,
            None => {
                return None;
            },
        };
        indices.push(m);
        let ghost antes = conteudo_par_u32(mapa);
        par_u32_inserir(&mut mapa, municipios[i].0, i as u32);
        proof {
            assert(municipios@.take(i + 1).drop_last() =~= municipios@.take(i as int));
            assert(municipios@.take(i + 1).last() == municipios@[i as int]);
            assert forall|k: (u32, u32)| #[trigger] conteudo_par_u32(mapa).contains_key(k) implies conteudo_par_u32(mapa)[k] < i + 1 by {
                if k != municipios@[i as int].0 {
                    assert(antes.contains_key(k));
                }
            }
        }
        i += 1;
    }
    assert(municipios@.take(municipios@.len() as int) =~= municipios@);
    Some((mapa, indices))
}

/// Os pares (chave, lista vista como sequência).
pub open spec fn pares_listas_u32(e: Seq<(u32, Vec<u32>)>) -> Seq<(u32, Seq<u32>)> {
    Seq::new(e.len(), |i: int| (e[i].0, e[i].1@))
}

/// Os pares (token, lista vista como sequência).
pub open spec fn pares_listas_u16(e: Seq<(u16, Vec<u16>)>) -> Seq<(u16, Seq<u16>)> {
    Seq::new(e.len(), |i: int| (e[i].0, e[i].1@))
}

proof fn lema_mapa_listas_u32(e: Seq<(u32, Vec<u32>)>)
    ensures
        mapa_listas_u32(e) == mapa_de(pares_listas_u32(e)),
    decreases e.len(),
{
    if e.len() > 0 {
        lema_mapa_listas_u32(e.drop_last());
        assert(pares_listas_u32(e).drop_last() =~= pares_listas_u32(e.drop_last()));
    }
}

proof fn lema_mapa_listas_u16(e: Seq<(u16, Vec<u16>)>)
    ensures
        mapa_listas_u16(e) == mapa_de(pares_listas_u16(e)),
    decreases e.len(),
{
    if e.len() > 0 {
        lema_mapa_listas_u16(e.drop_last());
        assert(pares_listas_u16(e).drop_last() =~= pares_listas_u16(e.drop_last()));
    }
}

proof fn lema_mapa_ids(e: Seq<(u32, u16)>)
    ensures
        mapa_ids(e) == mapa_de(e),
    decreases e.len(),
{
    if e.len() > 0 {
        lema_mapa_ids(e.drop_last());
    }
}

/// Numa lista de entradas de chaves distintas, cada chave vai para a
/// posição da sua entrada, e só essas chaves estão no mapa.
proof fn lema_mapa_posicoes(e: Seq<((u32, u32), PartesMunicipio)>)
    requires
        e.len() <= u32::MAX,
        forall|i: int, j: int| 0 <= i < j < e.len() ==> #[trigger] e[i].0 != #[trigger] e[j].0,
    ensures
        forall|i: int|
            0 <= i < e.len() ==> mapa_posicoes(e).contains_key(#[trigger] e[i].0) && mapa_posicoes(e)[e[i].0]
                == i,
        forall|k: (u32, u32)|
            mapa_posicoes(e).contains_key(k) ==> exists|i: int| 0 <= i < e.len() && #[trigger] e[i].0 == k,
    decreases e.len(),
{
    if e.len() > 0 {
        let n = e.len() - 1;
        let e0 = e.drop_last();
        assert forall|i: int, j: int| 0 <= i < j < e0.len() implies #[trigger] e0[i].0 != #[trigger] e0[j].0 by {
            assert(e0[i] == e[i] && e0[j] == e[j]);
        }
        lema_mapa_posicoes(e0);
        assert forall|i: int|
            0 <= i < e.len() implies mapa_posicoes(e).contains_key(#[trigger] e[i].0) && mapa_posicoes(e)[e[i].0]
                == i by {
            if i < n {
                assert(e0[i] == e[i]);
                assert(e[i].0 != e[n].0);
                assert(mapa_posicoes(e0)[e0[i].0] == i);
            }
        }
        assert forall|k: (u32, u32)| mapa_posicoes(e).contains_key(k) implies exists|i: int|
            0 <= i < e.len() && #[trigger] e[i].0 == k by {
            if k != e[n].0 {
                assert(mapa_posicoes(e0).contains_key(k));
                let i = choose|i: int| 0 <= i < e0.len() && #[trigger] e0[i].0 == k;
                assert(e[i].0 == k);
            }
        }
    }
}

/// As entradas (chave, lista) do mapa, cada chave uma vez.
fn entradas_listas_u32(m: &FxHashMap<u32, Vec<u32>>) -> (r: Vec<(u32, Vec<u32>)>)
    ensures
        mapa_listas_u32(r@) == conteudo_u32_lista(*m),
        forall|i: int|
            0 <= i < r@.len() ==> conteudo_u32_lista(*m).contains_key(#[trigger] r@[i].0)
                && conteudo_u32_lista(*m)[r@[i].0] == r@[i].1@,
{
    let chaves = u32_lista_chaves(m);
    let ghost c = conteudo_u32_lista(*m);
    let mut r: Vec<(u32, Vec<u32>)> = Vec::new();
    let mut j: usize = 0;
    while j < chaves.len()
        invariant
            j <= chaves@.len(),
            r@.len() == j,
            c == conteudo_u32_lista(*m),
            chaves@.no_duplicates(),
            forall|k: u32| chaves@.contains(k) <==> c.contains_key(k),
            forall|i: int|
                0 <= i < j ==> #[trigger] r@[i].0 == chaves@[i] && c.contains_key(r@[i].0) && c[r@[i].0]
                    == r@[i].1@,
        decreases chaves@.len() - j,
    {
        let k = chaves[j];
        assert(chaves@.contains(k));
        let v = match u32_lista_obter(m, k) {
            Some(v) => v.clone(),
            None => {
                assert(false);
                Vec::new()
            },
        };
        assert(v@ =~= c[k]);
        r.push((k, v));
        j += 1;
    }
    proof {
        let e = pares_listas_u32(r@);
        assert forall|a: int, b: int| 0 <= a < b < e.len() implies #[trigger] e[a].0 != #[trigger] e[b].0 by {
            assert(r@[a].0 == chaves@[a] && r@[b].0 == chaves@[b]);
        }
        assert forall|a: int| 0 <= a < e.len() implies c.contains_key(#[trigger] e[a].0) && c[e[a].0] == e[a].1 by {
            assert(r@[a].0 == chaves@[a]);
        }
        assert forall|k: u32| c.contains_key(k) implies exists|a: int| 0 <= a < e.len() && #[trigger] e[a].0 == k by {
            assert(chaves@.contains(k));
            let a = choose|a: int| 0 <= a < chaves@.len() && chaves@[a] == k;
            assert(r@[a].0 == chaves@[a]);
            assert(e[a].0 == k);
        }
        lema_mapa_de_entradas(e, c);
        lema_mapa_listas_u32(r@);
    }
    r
}

/// As entradas (token, lista) do mapa, cada token uma vez.
fn entradas_listas_u16(m: &FxHashMap<u16, Vec<u16>>) -> (r: Vec<(u16, Vec<u16>)>)
    ensures
        mapa_listas_u16(r@) == conteudo_u16_lista(*m),
        forall|i: int|
            0 <= i < r@.len() ==> conteudo_u16_lista(*m).contains_key(#[trigger] r@[i].0)
                && conteudo_u16_lista(*m)[r@[i].0] == r@[i].1@,
{
    let chaves = u16_lista_chaves(m);
    let ghost c = conteudo_u16_lista(*m);
    let mut r: Vec<(u16, Vec<u16>)> = Vec::new();
    let mut j: usize = 0;
    while j < chaves.len()
        invariant
            j <= chaves@.len(),
            r@.len() == j,
            c == conteudo_u16_lista(*m),
            chaves@.no_duplicates(),
            forall|k: u16| chaves@.contains(k) <==> c.contains_key(k),
            forall|i: int|
                0 <= i < j ==> #[trigger] r@[i].0 == chaves@[i] && c.contains_key(r@[i].0) && c[r@[i].0]
                    == r@[i].1@,
        decreases chaves@.len() - j,
    {
        let k = chaves[j];
        assert(chaves@.contains(k));
        let v = match u16_lista_obter(m, k) {
            Some(v) => v.clone(),
            None => {
                assert(false);
                Vec::new()
            },
        };
        assert(v@ =~= c[k]);
        r.push((k, v));
        j += 1;
    }
    proof {
        let e = pares_listas_u16(r@);
        assert forall|a: int, b: int| 0 <= a < b < e.len() implies #[trigger] e[a].0 != #[trigger] e[b].0 by {
            assert(r@[a].0 == chaves@[a] && r@[b].0 == chaves@[b]);
        }
        assert forall|a: int| 0 <= a < e.len() implies c.contains_key(#[trigger] e[a].0) && c[e[a].0] == e[a].1 by {
            assert(r@[a].0 == chaves@[a]);
        }
        assert forall|k: u16| c.contains_key(k) implies exists|a: int| 0 <= a < e.len() && #[trigger] e[a].0 == k by {
            assert(chaves@.contains(k));
            let a = choose|a: int| 0 <= a < chaves@.len() && chaves@[a] == k;
            assert(r@[a].0 == chaves@[a]);
            assert(e[a].0 == k);
        }
        lema_mapa_de_entradas(e, c);
        lema_mapa_listas_u16(r@);
    }
    r
}

/// Os pares (documento, id interno) do mapa, cada documento uma vez.
fn entradas_ids(m: &FxHashMap<u32, u16>) -> (r: Vec<(u32, u16)>)
    ensures
        mapa_ids(r@) == conteudo_u32_u16(*m),
        forall|i: int| 0 <= i < r@.len() ==> conteudo_u32_u16(*m).contains_key(#[trigger] r@[i].0),
{
    let r = u32_u16_entradas(m);
    proof {
        let c = conteudo_u32_u16(*m);
        assert forall|a: int| 0 <= a < r@.len() implies c.contains_key(#[trigger] r@[a].0) && c[r@[a].0] == r@[a].1 by {
        }
        lema_mapa_de_entradas(r@, c);
        lema_mapa_ids(r@);
    }
    r
}

/// Uma cópia dos intervalos.
fn copiar_intervalos(v: &Vec<(u32, u32)>) -> (r: Vec<(u32, u32)>)
    ensures
        r@ == v@,
{
    let mut r: Vec<(u32, u32)> = Vec::new();
    let mut i: usize = 0;
    while i < v.len()
        invariant
            i <= v@.len(),
            r@ == v@.take(i as int),
        decreases v@.len() - i,
    {
        r.push(v[i]);
        assert(v@.take(i + 1) =~= v@.take(i as int).push(v@[i as int]));
        i += 1;
    }
    assert(v@.take(v@.len() as int) =~= v@);
    r
}

} // verus!
