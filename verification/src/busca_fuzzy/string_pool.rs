//! Pool de textos: cada texto distinto recebe um id sequencial e é guardado
//! uma única vez num blob de bytes UTF-8.
use rustc_hash::FxHashMap;
use vstd::prelude::*;
use vstd::string::StringSliceAdditionalSpecFns;
use vstd::utf8::{decode_utf8, encode_utf8, valid_utf8};

use crate::busca_fuzzy::mapas::{
    conteudo_texto_u32, texto_u32_encolher, texto_u32_inserir, texto_u32_limpar, texto_u32_novo,
    texto_u32_obter,
};

verus! {

broadcast use vstd::utf8::encode_utf8_valid_utf8, vstd::utf8::encode_utf8_decode_utf8;

/// `std::str::from_utf8`: interpreta os bytes como texto UTF-8 quando são válidos.
#[verifier::external_body]
pub(crate) fn texto_de_bytes(b: &[u8]) -> (r: Option<&str>)
    ensures
        match r {
            Some(s) => s.spec_bytes() == b@,
            None => !valid_utf8(b@),
        },
{
    std::str::from_utf8(b).ok()
}

/// `Vec::shrink_to_fit`: só muda a capacidade; o conteúdo fica igual.
#[verifier::external_body]
pub(crate) fn encolher_vec<T>(v: &mut Vec<T>)
    ensures
        final(v)@ == old(v)@,
{
    v.shrink_to_fit()
}

/// Pool de textos: os bytes de todos os textos num blob, o intervalo de
/// cada um e o índice inverso de texto para id.
#[derive(Clone)]
pub struct StringPool {
    blob: Vec<u8>,
    offsets: Vec<(u32, u32)>,
    pub inverso: FxHashMap<String, u32>,
}

/// Os bytes do texto de id `i`.
pub open spec fn bytes_do_texto(blob: Seq<u8>, offsets: Seq<(u32, u32)>, i: int) -> Seq<u8> {
    blob.subrange(offsets[i].0 as int, offsets[i].0 + offsets[i].1)
}

/// O trecho do texto de id `i` cabe no blob e é UTF-8 válido.
pub open spec fn trecho_valido(blob: Seq<u8>, offsets: Seq<(u32, u32)>, i: int) -> bool {
    &&& offsets[i].0 + offsets[i].1 <= blob.len()
    &&& valid_utf8(bytes_do_texto(blob, offsets, i))
}

/// Blob e intervalos que formam um pool: tamanhos que cabem em `u32` e
/// todo intervalo dentro do blob, com UTF-8 válido.
pub open spec fn partes_validas(blob: Seq<u8>, offsets: Seq<(u32, u32)>) -> bool {
    &&& blob.len() <= u32::MAX
    &&& offsets.len() <= u32::MAX
    &&& forall|i: int| 0 <= i < offsets.len() ==> #[trigger] trecho_valido(blob, offsets, i)
}

/// Os textos guardados num blob com os seus intervalos.
pub open spec fn textos_de_partes(blob: Seq<u8>, offsets: Seq<(u32, u32)>) -> Seq<Seq<char>> {
    Seq::new(offsets.len(), |i: int| decode_utf8(bytes_do_texto(blob, offsets, i)))
}

/// Índice completo de uma lista de textos: cada texto aponta para a
/// última posição em que aparece.
pub open spec fn indice_completo(t: Seq<Seq<char>>) -> Map<Seq<char>, u32>
    decreases t.len(),
{
    if t.len() == 0 {
        Map::empty()
    } else {
        indice_completo(t.drop_last()).insert(t.last(), (t.len() - 1) as u32)
    }
}

/// Efeito de `push` sobre o modelo (textos, índice inverso): o id devolvido
/// e o novo modelo.
pub open spec fn push_modelo(
    textos: Seq<Seq<char>>,
    inverso: Map<Seq<char>, u32>,
    s: Seq<char>,
) -> (Seq<Seq<char>>, Map<Seq<char>, u32>, u32) {
    if inverso.contains_key(s) {
        (textos, inverso, inverso[s])
    } else {
        (textos.push(s), inverso.insert(s, textos.len() as u32), textos.len() as u32)
    }
}

impl StringPool {
    /// Os textos guardados, na ordem dos ids.
    pub closed spec fn textos(&self) -> Seq<Seq<char>> {
        Seq::new(
            self.offsets@.len(),
            |i: int| decode_utf8(bytes_do_texto(self.blob@, self.offsets@, i)),
        )
    }

    /// O índice inverso: de texto para id.
    pub closed spec fn indice(&self) -> Map<Seq<char>, u32> {
        conteudo_texto_u32(self.inverso)
    }

    /// Número de bytes do blob.
    pub closed spec fn tamanho_blob(&self) -> nat {
        self.blob@.len()
    }

    /// Boa formação: os intervalos cabem no blob e guardam UTF-8 válido, e o
    /// índice inverso só aponta ids cujo texto é a própria chave.
    pub closed spec fn wf(&self) -> bool {
        &&& self.blob@.len() <= u32::MAX
        &&& self.offsets@.len() <= u32::MAX
        &&& forall|i: int|
            0 <= i < self.offsets@.len() ==> {
                &&& #[trigger] self.offsets@[i].0 + self.offsets@[i].1 <= self.blob@.len()
                &&& valid_utf8(bytes_do_texto(self.blob@, self.offsets@, i))
            }
        &&& self.indice().dom().finite()
        &&& forall|s: Seq<char>|
            #[trigger] self.indice().contains_key(s) ==> {
                &&& self.indice()[s] < self.offsets@.len()
                &&& self.textos()[self.indice()[s] as int] == s
            }
    }

    /// O tamanho do blob depois de `push(s)`: cresce pelos bytes de `s` só se
    /// `s` ainda não está no pool.
    pub open spec fn tamanho_apos_push(&self, s: Seq<char>) -> nat {
        if self.indice().contains_key(s) {
            self.tamanho_blob()
        } else {
            self.tamanho_blob() + encode_utf8(s).len()
        }
    }

    /// `push` ainda cabe nos limites de `u32` do pool.
    pub open spec fn cabe(&self, s: Seq<char>) -> bool {
        &&& self.tamanho_blob() + encode_utf8(s).len() <= u32::MAX
        &&& self.textos().len() < u32::MAX
    }

    proof fn lema_textos_preservados(
        old_blob: Seq<u8>,
        blob: Seq<u8>,
        old_offsets: Seq<(u32, u32)>,
        offsets: Seq<(u32, u32)>,
    )
        requires
            old_blob.len() <= blob.len(),
            blob.subrange(0, old_blob.len() as int) == old_blob,
            old_offsets.len() <= offsets.len(),
            forall|i: int| 0 <= i < old_offsets.len() ==> offsets[i] == old_offsets[i],
            forall|i: int|
                0 <= i < old_offsets.len() ==> #[trigger] old_offsets[i].0 + old_offsets[i].1
                    <= old_blob.len(),
        ensures
            forall|i: int|
                0 <= i < old_offsets.len() ==> #[trigger] bytes_do_texto(blob, offsets, i)
                    == bytes_do_texto(old_blob, old_offsets, i),
    {
        assert forall|i: int| 0 <= i < old_offsets.len() implies #[trigger] bytes_do_texto(
            blob,
            offsets,
            i,
        ) == bytes_do_texto(old_blob, old_offsets, i) by {
            assert(old_offsets[i].0 + old_offsets[i].1 <= old_blob.len());
            assert(bytes_do_texto(blob, offsets, i) =~= bytes_do_texto(old_blob, old_offsets, i));
        }
    }

    /// Monta um pool a partir do blob e dos intervalos de cada texto, com o
    /// índice inverso vazio; `None` se os intervalos não formam um pool.
    pub fn de_partes(blob: Vec<u8>, offsets: Vec<(u32, u32)>) -> (r: Option<StringPool>)
        ensures
            r is Some <==> partes_validas(blob@, offsets@),
            r matches Some(p) ==> {
                &&& p.wf()
                &&& p.bytes() == blob@
                &&& p.intervalos() == offsets@
                &&& p.textos() == textos_de_partes(blob@, offsets@)
                &&& p.indice() == Map::<Seq<char>, u32>::empty()
                &&& p.tamanho_blob() == blob@.len()
            },
    {
        if blob.len() > 0xffff_ffffusize || offsets.len() > 0xffff_ffffusize {
            return None;
        }
        let mut i: usize = 0;
        while i < offsets.len()
            invariant
                i <= offsets@.len(),
                blob@.len() <= u32::MAX,
                offsets@.len() <= u32::MAX,
                forall|k: int| 0 <= k < i ==> #[trigger] trecho_valido(blob@, offsets@, k),
            decreases offsets@.len() - i,
        {
            let (ini, tam) = offsets[i];
            if ini as u64 + tam as u64 > blob.len() as u64 {
                assert(!trecho_valido(blob@, offsets@, i as int));
                return None;
            }
            let fim = ini as usize + tam as usize;
            let fatia = &blob.as_slice()[ini as usize..fim];
            assert(fatia@ == bytes_do_texto(blob@, offsets@, i as int));
            match texto_de_bytes(fatia) {
                Some(_) => {},
                None => {
                    assert(!trecho_valido(blob@, offsets@, i as int));
                    return None;
                },
            }
            i += 1;
        }
        let p = StringPool { blob, offsets, inverso: texto_u32_novo() };
        assert forall|k: int| 0 <= k < p.offsets@.len() implies {
            &&& #[trigger] p.offsets@[k].0 + p.offsets@[k].1 <= p.blob@.len()
            &&& valid_utf8(bytes_do_texto(p.blob@, p.offsets@, k))
        } by {
            assert(trecho_valido(p.blob@, p.offsets@, k));
        }
        assert(p.textos() =~= textos_de_partes(p.blob@, p.offsets@));
        Some(p)
    }

    /// Libera a capacidade sobrando dos vetores e do índice.
    pub fn shrink_to_fit(&mut self)
        requires
            old(self).wf(),
        ensures
            final(self).wf(),
            final(self).textos() == old(self).textos(),
            final(self).indice() == old(self).indice(),
            final(self).tamanho_blob() == old(self).tamanho_blob(),
            final(self).bytes() == old(self).bytes(),
            final(self).intervalos() == old(self).intervalos(),
    {
        encolher_vec(&mut self.blob);
        encolher_vec(&mut self.offsets);
        texto_u32_encolher(&mut self.inverso);
        assert(self.textos() =~= old(self).textos());
    }

    /// Guarda `s` e devolve o seu id; um texto já presente no índice
    /// devolve o id existente sem crescer o pool.
    pub fn push(&mut self, s: &str) -> (r: u32)
        requires
            old(self).wf(),
            old(self).cabe(s@),
        ensures
            final(self).wf(),
            (final(self).textos(), final(self).indice(), r) == push_modelo(
                old(self).textos(),
                old(self).indice(),
                s@,
            ),
            r < final(self).textos().len(),
            final(self).textos()[r as int] == s@,
            old(self).indice().contains_key(s@) ==> final(self).tamanho_blob()
                == old(self).tamanho_blob(),
            !old(self).indice().contains_key(s@) ==> final(self).tamanho_blob()
                == old(self).tamanho_blob() + encode_utf8(s@).len(),
            old(self).indice().contains_key(s@) ==> final(self).bytes() == old(self).bytes()
                && final(self).intervalos() == old(self).intervalos(),
            !old(self).indice().contains_key(s@) ==> {
                &&& final(self).bytes() == old(self).bytes() + encode_utf8(s@)
                &&& final(self).intervalos() == old(self).intervalos().push(
                    (old(self).bytes().len() as u32, encode_utf8(s@).len() as u32),
                )
            },
    {
        if let Some(id) = texto_u32_obter(&self.inverso, s) {
            return id;
        }
        let ghost old_blob = self.blob@;
        let ghost old_offsets = self.offsets@;
        let ghost old_textos = self.textos();
        let id = self.offsets.len() as u32;
        let start = self.blob.len() as u32;
        let bytes = s.as_bytes();
        let len = bytes.len() as u32;
        self.blob.extend_from_slice(bytes);
        self.offsets.push((start, len));
        proof {
            assert(self.blob@ =~= old_blob + bytes@);
            assert(self.blob@.subrange(0, old_blob.len() as int) =~= old_blob);
            Self::lema_textos_preservados(old_blob, self.blob@, old_offsets, self.offsets@);
            assert(bytes_do_texto(self.blob@, self.offsets@, id as int) =~= bytes@);
        }
        texto_u32_inserir(&mut self.inverso, s.to_owned(), id);
        proof {
            assert(self.textos() =~= old_textos.push(s@));
            assert forall|t: Seq<char>| #[trigger] self.indice().contains_key(t) implies {
                &&& self.indice()[t] < self.offsets@.len()
                &&& self.textos()[self.indice()[t] as int] == t
            } by {
                if t != s@ {
                    assert(old(self).indice().contains_key(t));
                }
            }
        }
        id
    }

    /// O texto de id `id`.
    pub fn get(&self, id: u32) -> (r: &str)
        requires
            self.wf(),
            id < self.textos().len(),
        ensures
            r@ == self.textos()[id as int],
    {
        let (start, len) = self.offsets[id as usize];
        let fim = start as usize + len as usize;
        let fatia = &self.blob.as_slice()[start as usize..fim];
        assert(fatia@ == bytes_do_texto(self.blob@, self.offsets@, id as int));
        match texto_de_bytes(fatia) {
            Some(t) => {
                proof {
                    vstd::utf8::encode_utf8_decode_utf8(t@);
                }
                t
            },
            None => {
                assert(false);
                ""
            },
        }
    }

    /// O id de `s`, se `s` estiver no índice inverso.
    pub fn get_str(&self, s: &str) -> (r: Option<u32>)
        requires
            self.wf(),
        ensures
            r == (if self.indice().contains_key(s@) {
                Some(self.indice()[s@])
            } else {
                None::<u32>
            }),
            r matches Some(id) ==> id < self.textos().len() && self.textos()[id as int] == s@,
    {
        texto_u32_obter(&self.inverso, s)
    }

    /// Reconstrói o índice inverso a partir dos textos guardados.
    pub fn popular_inverso(&mut self)
        requires
            old(self).wf(),
        ensures
            final(self).wf(),
            final(self).textos() == old(self).textos(),
            final(self).indice() == indice_completo(old(self).textos()),
            final(self).tamanho_blob() == old(self).tamanho_blob(),
    {
        texto_u32_limpar(&mut self.inverso);
        let n = self.offsets.len();
        let mut id: usize = 0;
        while id < n
            invariant
                n == self.offsets@.len(),
                id <= n,
                self.blob == old(self).blob,
                self.offsets == old(self).offsets,
                self.wf(),
                self.indice() == indice_completo(self.textos().take(id as int)),
            decreases n - id,
        {
            let s = self.get(id as u32).to_owned();
            let ghost t = self.textos();
            let ghost pre = *self;
            texto_u32_inserir(&mut self.inverso, s, id as u32);
            proof {
                assert(self.textos() == t);
                assert(t.take(id + 1).drop_last() =~= t.take(id as int));
                assert(t.take(id + 1).last() == t[id as int]);
                assert(self.indice() =~= indice_completo(t.take(id + 1)));
                assert forall|k: Seq<char>| #[trigger] self.indice().contains_key(k) implies {
                    &&& self.indice()[k] < self.offsets@.len()
                    &&& self.textos()[self.indice()[k] as int] == k
                } by {
                    if k != t[id as int] {
                        assert(pre.indice().contains_key(k));
                    }
                }
            }
            id += 1;
        }
        assert(self.textos().take(n as int) =~= self.textos());
    }

    /// Esvazia o índice inverso; os textos continuam acessíveis por id.
    pub fn limpar_inverso(&mut self)
        requires
            old(self).wf(),
        ensures
            final(self).wf(),
            final(self).textos() == old(self).textos(),
            final(self).indice() == Map::<Seq<char>, u32>::empty(),
            final(self).tamanho_blob() == old(self).tamanho_blob(),
            final(self).bytes() == old(self).bytes(),
            final(self).intervalos() == old(self).intervalos(),
    {
        texto_u32_limpar(&mut self.inverso);
    }

    /// Os bytes guardados.
    pub closed spec fn bytes(&self) -> Seq<u8> {
        self.blob@
    }

    /// Os intervalos (início, tamanho) de cada texto.
    pub closed spec fn intervalos(&self) -> Seq<(u32, u32)> {
        self.offsets@
    }

    /// Os textos de um pool são os trechos do blob apontados pelos
    /// intervalos, e o blob e os intervalos formam um pool válido: montar um
    /// pool com as partes de outro dá os mesmos textos.
    pub proof fn lei_partes_do_pool(&self)
        requires
            self.wf(),
        ensures
            self.textos() == textos_de_partes(self.bytes(), self.intervalos()),
            partes_validas(self.bytes(), self.intervalos()),
            self.tamanho_blob() == self.bytes().len(),
    {
        assert(self.textos() =~= textos_de_partes(self.bytes(), self.intervalos()));
        assert forall|i: int| 0 <= i < self.offsets@.len() implies #[trigger] trecho_valido(
            self.blob@,
            self.offsets@,
            i,
        ) by {
            assert(self.offsets@[i].0 + self.offsets@[i].1 <= self.blob@.len());
        }
    }

    /// Os bytes de todos os textos, concatenados.
    pub fn blob(&self) -> (r: &Vec<u8>)
        ensures
            r@ == self.bytes(),
            r@.len() == self.tamanho_blob(),
    {
        &self.blob
    }

    /// Os intervalos (início, tamanho) de cada texto no blob.
    pub fn offsets(&self) -> (r: &Vec<(u32, u32)>)
        ensures
            r@ == self.intervalos(),
            r@.len() == self.textos().len(),
    {
        &self.offsets
    }
}

impl Default for StringPool {
    fn default() -> (r: Self)
        ensures
            r.wf(),
            r.textos() == Seq::<Seq<char>>::empty(),
            r.indice() == Map::<Seq<char>, u32>::empty(),
            r.tamanho_blob() == 0,
    {
        let r = StringPool { blob: Vec::new(), offsets: Vec::new(), inverso: texto_u32_novo() };
        assert(r.textos() =~= Seq::<Seq<char>>::empty());
        r
    }
}

/// Guardar duas vezes o mesmo texto é o mesmo que guardá-lo uma vez: a
/// segunda vez devolve o mesmo id e não muda o pool.
pub proof fn lei_push_idempotente(textos: Seq<Seq<char>>, inverso: Map<Seq<char>, u32>, s: Seq<char>)
    ensures
        ({
            let (t1, i1, id1) = push_modelo(textos, inverso, s);
            push_modelo(t1, i1, s) == (t1, i1, id1)
        }),
{
}

/// Depois de guardar `s`, o índice inverso acha `s` no id devolvido, os ids
/// antigos guardam os mesmos textos, e cada texto do índice continua
/// apontando para um id em que ele está guardado.
pub proof fn lei_push_indice(textos: Seq<Seq<char>>, inverso: Map<Seq<char>, u32>, s: Seq<char>)
    requires
        textos.len() < u32::MAX,
        forall|k: Seq<char>|
            #[trigger] inverso.contains_key(k) ==> inverso[k] < textos.len() && textos[inverso[k] as int]
                == k,
    ensures
        ({
            let (t1, i1, id) = push_modelo(textos, inverso, s);
            &&& i1.contains_key(s)
            &&& i1[s] == id
            &&& id < t1.len()
            &&& t1[id as int] == s
            &&& textos.is_prefix_of(t1)
            &&& forall|k: Seq<char>|
                #[trigger] i1.contains_key(k) ==> i1[k] < t1.len() && t1[i1[k] as int] == k
        }),
{
    let (t1, i1, id) = push_modelo(textos, inverso, s);
    assert(textos.is_prefix_of(t1)) by {
        assert(t1.subrange(0, textos.len() as int) =~= textos);
    }
}

/// O índice completo tem exatamente os textos da lista, e cada um aponta
/// para a sua última ocorrência; numa lista sem repetições, o id de cada
/// texto é a sua posição.
pub proof fn lei_indice_completo(t: Seq<Seq<char>>)
    requires
        t.len() <= u32::MAX,
    ensures
        forall|s: Seq<char>| #[trigger] indice_completo(t).contains_key(s) <==> t.contains(s),
        forall|s: Seq<char>|
            #[trigger] indice_completo(t).contains_key(s) ==> {
                let i = indice_completo(t)[s] as int;
                &&& 0 <= i < t.len()
                &&& t[i] == s
                &&& forall|j: int| i < j < t.len() ==> t[j] != s
            },
        t.no_duplicates() ==> forall|i: int|
            0 <= i < t.len() ==> #[trigger] indice_completo(t)[t[i]] == i,
    decreases t.len(),
{
    if t.len() > 0 {
        let t0 = t.drop_last();
        lei_indice_completo(t0);
        assert forall|s: Seq<char>| #[trigger] indice_completo(t).contains_key(s) <==> t.contains(s) by {
            assert(t[t.len() - 1] == t.last());
            assert(indice_completo(t0).contains_key(s) <==> t0.contains(s));
            if t0.contains(s) {
                let k = choose|k: int| 0 <= k < t0.len() && t0[k] == s;
                assert(t[k] == s);
            }
            if t.contains(s) && s != t.last() {
                let k = choose|k: int| 0 <= k < t.len() && t[k] == s;
                assert(t0[k] == s);
            }
        }
        assert forall|s: Seq<char>| #[trigger] indice_completo(t).contains_key(s) implies {
            let i = indice_completo(t)[s] as int;
            &&& 0 <= i < t.len()
            &&& t[i] == s
            &&& forall|j: int| i < j < t.len() ==> t[j] != s
        } by {
            if s != t.last() {
                assert(indice_completo(t0).contains_key(s));
                let i = indice_completo(t0)[s] as int;
                assert(indice_completo(t)[s] == indice_completo(t0)[s]);
                assert(t0[i] == s);
                assert forall|j: int| i < j < t.len() implies t[j] != s by {
                    if j < t0.len() {
                        assert(t0[j] == t[j]);
                    }
                }
            }
        }
        if t.no_duplicates() {
            assert(t0.no_duplicates());
            assert forall|i: int| 0 <= i < t.len() implies #[trigger] indice_completo(t)[t[i]] == i by {
                if i < t.len() - 1 {
                    assert(t[i] != t[t.len() - 1]);
                    assert(t0[i] == t[i]);
                    assert(indice_completo(t0)[t0[i]] == i);
                    assert(indice_completo(t)[t[i]] == indice_completo(t0)[t[i]]);
                } else {
                    assert(t[i] == t.last());
                }
            }
        }
    }
}

} // verus!
