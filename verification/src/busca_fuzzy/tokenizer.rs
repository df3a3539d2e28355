//! Tokenização de textos em n-gramas de bytes, internados como `Token`.
use rustc_hash::FxHashMap;
use vstd::prelude::*;
use vstd::string::StringSliceAdditionalSpecFns;
use vstd::utf8::{decode_utf8, encode_utf8, is_char_boundary, is_continuation_byte, valid_utf8};

use crate::busca_fuzzy::utils::{
    lema_id_sequencial, lema_mapa_de_entradas, mapa_de, mapa_injetivo, valores_abaixo_do_tamanho,
};
use crate::busca_fuzzy::mapas::{
    conteudo_texto_u16, texto_u16_encolher, texto_u16_entradas, texto_u16_inserir, texto_u16_novo, texto_u16_obter,
    texto_u16_tamanho,
};

verus! {

broadcast use vstd::utf8::encode_utf8_valid_utf8, vstd::utf8::encode_utf8_decode_utf8;

pub type Token = u16;

/// Quantos n-gramas de tamanho `n` há em `len` bytes.
pub open spec fn qtd_ngramas(len: nat, n: nat) -> nat {
    if n <= len {
        (len - n + 1) as nat
    } else {
        0
    }
}

/// Os n-gramas de bytes de `b`, cada um lido como texto: a janela que começa
/// no byte `i` e tem `n` bytes, para cada `i` possível.
pub open spec fn ngramas(b: Seq<u8>, n: nat) -> Seq<Seq<char>> {
    Seq::new(qtd_ngramas(b.len(), n), |i: int| decode_utf8(b.subrange(i, i + n)))
}

/// Todas as janelas de `n` bytes de `b` começam e terminam em fronteira de caractere.
pub open spec fn janelas_em_fronteira(b: Seq<u8>, n: nat) -> bool {
    forall|i: int|
        0 <= i && i + n <= b.len() ==> #[trigger] is_char_boundary(b, i) && is_char_boundary(
            b,
            i + n,
        )
}

/// A posição do último n-grama ainda cabe em `usize` (só falha com n-gramas
/// vazios num texto de `usize::MAX` bytes).
pub open spec fn ngramas_cabem(b: Seq<u8>, n: nat) -> bool {
    &&& b.len() <= usize::MAX
    &&& n > 0 || b.len() < usize::MAX
}

/// Os tokens dos n-gramas presentes no mapa, na ordem dos n-gramas.
pub open spec fn tokens_conhecidos(ngs: Seq<Seq<char>>, m: Map<Seq<char>, u16>) -> Seq<u16>
    decreases ngs.len(),
{
    if ngs.len() == 0 {
        Seq::empty()
    } else {
        let r = tokens_conhecidos(ngs.drop_last(), m);
        if m.contains_key(ngs.last()) {
            r.push(m[ngs.last()])
        } else {
            r
        }
    }
}

/// Efeito de internar `s` no mapa `m`: o novo mapa e o token de `s`.
/// Um texto novo recebe como token o número de entradas do mapa, reduzido a 16 bits.
pub open spec fn intern_modelo(m: Map<Seq<char>, u16>, s: Seq<char>) -> (Map<Seq<char>, u16>, u16) {
    if m.contains_key(s) {
        (m, m[s])
    } else {
        (m.insert(s, m.dom().len() as u16), m.dom().len() as u16)
    }
}

/// Internar um n-grama devolve o seu token no novo mapa; um n-grama novo
/// recebe um token que nenhum outro n-grama do mapa tem. Com tokens abaixo
/// do número de n-gramas (como o tokenizador os dá) e menos de 65536
/// n-gramas, n-gramas distintos continuam com tokens distintos.
pub proof fn lei_intern_token_novo(m: Map<Seq<char>, u16>, s: Seq<char>)
    requires
        m.dom().finite(),
        m.dom().len() < 0x10000,
        valores_abaixo_do_tamanho(m),
    ensures
        ({
            let (m2, t) = intern_modelo(m, s);
            &&& m2.contains_key(s) && m2[s] == t
            &&& forall|k: Seq<char>| #[trigger] m.contains_key(k) ==> m2.contains_key(k) && m2[k] == m[k]
            &&& !m.contains_key(s) ==> forall|k: Seq<char>| #[trigger] m.contains_key(k) ==> m[k] != t
            &&& m2.dom().finite()
            &&& valores_abaixo_do_tamanho(m2)
            &&& mapa_injetivo(m) ==> mapa_injetivo(m2)
        }),
{
    if !m.contains_key(s) {
        lema_id_sequencial(m, s);
    }
}

/// Internar n-gramas em ordem dá a cada um o token que ele tem no mapa
/// final, e n-gramas distintos recebem tokens distintos: o mapa continua
/// injetivo enquanto houver menos de 65536 n-gramas.
pub proof fn lei_tokens_indexados_injetivo(ngs: Seq<Seq<char>>, m: Map<Seq<char>, u16>)
    requires
        m.dom().finite(),
        m.dom().len() + ngs.len() <= 0x10000,
        valores_abaixo_do_tamanho(m),
        mapa_injetivo(m),
    ensures
        ({
            let (m2, ts) = tokens_indexados(ngs, m);
            &&& m2.dom().finite()
            &&& m2.dom().len() <= m.dom().len() + ngs.len()
            &&& valores_abaixo_do_tamanho(m2)
            &&& mapa_injetivo(m2)
            &&& ts.len() == ngs.len()
            &&& forall|i: int| 0 <= i < ngs.len() ==> m2.contains_key(#[trigger] ngs[i]) && m2[ngs[i]] == ts[i]
        }),
    decreases ngs.len(),
{
    if ngs.len() > 0 {
        let n0 = ngs.drop_last();
        lei_tokens_indexados_injetivo(n0, m);
        let (m1, ts1) = tokens_indexados(n0, m);
        lei_intern_token_novo(m1, ngs.last());
        let (m2, ts) = tokens_indexados(ngs, m);
        assert forall|i: int| 0 <= i < ngs.len() implies m2.contains_key(#[trigger] ngs[i]) && m2[ngs[i]] == ts[i] by {
            if i < ngs.len() - 1 {
                assert(n0[i] == ngs[i]);
                assert(ts[i] == ts1[i]);
            }
        }
        if !m1.contains_key(ngs.last()) {
            assert(m2.dom() =~= m1.dom().insert(ngs.last()));
        } else {
            assert(m2 == m1);
        }
    }
}

/// Efeito de internar, em ordem, todos os n-gramas `ngs`.
pub open spec fn tokens_indexados(ngs: Seq<Seq<char>>, m: Map<Seq<char>, u16>) -> (
    Map<Seq<char>, u16>,
    Seq<u16>,
)
    decreases ngs.len(),
{
    if ngs.len() == 0 {
        (m, Seq::empty())
    } else {
        let (m1, ts) = tokens_indexados(ngs.drop_last(), m);
        let (m2, t) = intern_modelo(m1, ngs.last());
        (m2, ts.push(t))
    }
}

/// O mapa formado pelas entradas (n-grama, token), em ordem: uma entrada
/// repetida substitui a anterior.
pub open spec fn mapa_de_tokens(e: Seq<(String, u16)>) -> Map<Seq<char>, u16>
    decreases e.len(),
{
    if e.len() == 0 {
        Map::empty()
    } else {
        mapa_de_tokens(e.drop_last()).insert(e.last().0@, e.last().1)
    }
}

/// Iterador sobre os n-gramas de bytes de um texto.
pub struct NgramIter<'a> {
    string: &'a str,
    ultima_pos: usize,
    tam_ngram: usize,
}

proof fn lema_fronteira_no_sufixo(b: Seq<u8>, i: int, j: int)
    requires
        valid_utf8(b),
        0 <= i <= j <= b.len(),
        is_char_boundary(b, i),
        is_char_boundary(b, j),
    ensures
        valid_utf8(b.subrange(i, b.len() as int)),
        is_char_boundary(b.subrange(i, b.len() as int), j - i),
{
    let s = b.subrange(i, b.len() as int);
    vstd::utf8::valid_utf8_split(b, i);
    if j == b.len() {
        vstd::utf8::is_char_boundary_start_end_of_seq(s);
    } else {
        vstd::utf8::is_char_boundary_iff_not_is_continuation_byte(b, j);
        vstd::utf8::is_char_boundary_iff_not_is_continuation_byte(s, j - i);
    }
}

impl<'a> NgramIter<'a> {
    /// Os bytes do texto percorrido.
    pub closed spec fn bytes(&self) -> Seq<u8> {
        self.string.spec_bytes()
    }

    /// O tamanho dos n-gramas.
    pub closed spec fn tamanho(&self) -> nat {
        self.tam_ngram as nat
    }

    /// Os n-gramas que ainda faltam ser devolvidos.
    pub closed spec fn restantes(&self) -> Seq<Seq<char>> {
        let todos = ngramas(self.string.spec_bytes(), self.tam_ngram as nat);
        if self.ultima_pos <= todos.len() {
            todos.skip(self.ultima_pos as int)
        } else {
            Seq::empty()
        }
    }

    /// A posição do último n-grama cabe em `usize`.
    pub closed spec fn wf(&self) -> bool {
        ngramas_cabem(self.string.spec_bytes(), self.tam_ngram as nat)
    }

    /// A próxima janela, se houver, começa e termina em fronteira de caractere.
    pub closed spec fn proxima_em_fronteira(&self) -> bool {
        let b = self.string.spec_bytes();
        let i = self.ultima_pos as int;
        let n = self.tam_ngram as int;
        i + n <= b.len() ==> is_char_boundary(b, i) && is_char_boundary(b, i + n)
    }

    /// Todas as janelas restantes começam e terminam em fronteira de caractere.
    pub closed spec fn restantes_em_fronteira(&self) -> bool {
        let b = self.string.spec_bytes();
        forall|i: int|
            self.ultima_pos <= i && i + self.tam_ngram <= b.len() ==> #[trigger] is_char_boundary(b, i)
                && is_char_boundary(b, i + self.tam_ngram)
    }

    /// Se todas as janelas restantes estão em fronteiras, a próxima também está.
    pub proof fn lema_proxima_em_fronteira(&self)
        requires
            self.restantes_em_fronteira(),
        ensures
            self.proxima_em_fronteira(),
    {
        let b = self.string.spec_bytes();
        let i = self.ultima_pos as int;
        if i + self.tam_ngram <= b.len() {
            assert(is_char_boundary(b, i));
        }
    }

    /// Começa a percorrer os n-gramas de `string`.
    pub fn new(string: &'a str, tam_ngram: usize) -> (r: Self)
        requires
            ngramas_cabem(string.spec_bytes(), tam_ngram as nat),
        ensures
            r.wf(),
            r.bytes() == string.spec_bytes(),
            r.tamanho() == tam_ngram,
            r.restantes() == ngramas(string.spec_bytes(), tam_ngram as nat),
            janelas_em_fronteira(string.spec_bytes(), tam_ngram as nat) ==> r.restantes_em_fronteira(),
    {
        let r = Self { string, ultima_pos: 0, tam_ngram };
        assert(r.restantes() =~= ngramas(string.spec_bytes(), tam_ngram as nat));
        r
    }

    /// O próximo n-grama, ou `None` quando acabaram.
    pub fn next(&mut self) -> (r: Option<&'a str>)
        requires
            old(self).wf(),
            old(self).proxima_em_fronteira(),
        ensures
            final(self).wf(),
            final(self).bytes() == old(self).bytes(),
            final(self).tamanho() == old(self).tamanho(),
            old(self).restantes_em_fronteira() ==> final(self).restantes_em_fronteira(),
            match r {
                Some(s) => old(self).restantes().len() > 0 && s@ == old(self).restantes()[0]
                    && final(self).restantes() == old(self).restantes().drop_first(),
                None => old(self).restantes().len() == 0 && final(self).restantes()
                    == old(self).restantes(),
            },
    {
        let ghost b = self.string.spec_bytes();
        let ghost n = self.tam_ngram as nat;
        let len = self.string.len();
        let start = self.ultima_pos;
        if self.tam_ngram > len || start > len - self.tam_ngram {
            proof {
                let todos = ngramas(b, n);
                assert(len == b.len());
                assert(todos.len() == qtd_ngramas(b.len(), n));
                assert(self.restantes() =~= Seq::<Seq<char>>::empty());
            }
            return None;
        }
        let ghost todos = ngramas(b, n);
        assert(len == b.len());
        assert(is_char_boundary(b, start as int));
        assert(is_char_boundary(b, start + n));
        let (_, resto) = self.string.split_at(start);
        proof {
            lema_fronteira_no_sufixo(b, start as int, start + n);
            assert(resto.spec_bytes() =~= b.subrange(start as int, b.len() as int));
        }
        let (ng, _) = resto.split_at(self.tam_ngram);
        self.ultima_pos = start + 1;
        proof {
            assert(ng.spec_bytes() =~= b.subrange(start as int, start + n));
            assert(ng@ == decode_utf8(ng.spec_bytes()));
            assert(self.restantes() =~= old(self).restantes().drop_first());
        }
        Some(ng)
    }

    /// Todos os n-gramas restantes, em ordem.
    pub fn coletar(&mut self) -> (r: Vec<&'a str>)
        requires
            old(self).wf(),
            old(self).restantes_em_fronteira(),
        ensures
            r@.len() == old(self).restantes().len(),
            forall|i: int| 0 <= i < r@.len() ==> #[trigger] r@[i]@ == old(self).restantes()[i],
            final(self).wf(),
            final(self).restantes().len() == 0,
    {
        let mut r: Vec<&'a str> = Vec::new();
        loop
            invariant
                self.wf(),
                self.restantes_em_fronteira(),
                self.bytes() == old(self).bytes(),
                self.tamanho() == old(self).tamanho(),
                r@.len() + self.restantes().len() == old(self).restantes().len(),
                forall|i: int| 0 <= i < r@.len() ==> #[trigger] r@[i]@ == old(self).restantes()[i],
                self.restantes() == old(self).restantes().skip(r@.len() as int),
            ensures
                self.wf(),
                r@.len() == old(self).restantes().len(),
                forall|i: int| 0 <= i < r@.len() ==> #[trigger] r@[i]@ == old(self).restantes()[i],
                self.restantes().len() == 0,
            decreases self.restantes().len(),
        {
            match self.next() {
                Some(s) => {
                    r.push(s);
                },
                None => {
                    break ;
                },
            }
        }
        r
    }
}

/// Tokenizador de n-gramas de `ngram_size` bytes, com o mapa de cada
/// n-grama conhecido para o seu token.
#[derive(Clone)]
pub struct NgramTokenizer {
    pub ngram_size: usize,
    pub token_map: FxHashMap<String, Token>,
}

impl NgramTokenizer {
    /// O mapa de n-gramas para tokens.
    pub closed spec fn tokens(&self) -> Map<Seq<char>, u16> {
        conteudo_texto_u16(self.token_map)
    }

    /// Boa formação: o mapa de tokens é finito.
    pub closed spec fn wf(&self) -> bool {
        self.tokens().dom().finite()
    }

    /// Um tokenizador vazio, de n-gramas de `ngram_size` bytes.
    pub fn new(ngram_size: usize) -> (r: Self)
        ensures
            r.wf(),
            r.ngram_size == ngram_size,
            r.tokens() == Map::<Seq<char>, u16>::empty(),
    {
        NgramTokenizer { ngram_size, token_map: texto_u16_novo() }
    }

    /// Um tokenizador com o mapa formado pelas entradas (n-grama, token).
    pub fn de_partes(ngram_size: usize, entradas: &Vec<(String, Token)>) -> (r: Self)
        ensures
            r.wf(),
            r.ngram_size == ngram_size,
            r.tokens() == mapa_de_tokens(entradas@),
    {
        let mut token_map = texto_u16_novo();
        let mut i: usize = 0;
        while i < entradas.len()
            invariant
                i <= entradas@.len(),
                conteudo_texto_u16(token_map) == mapa_de_tokens(entradas@.take(i as int)),
                conteudo_texto_u16(token_map).dom().finite(),
            decreases entradas@.len() - i,
        {
            let s = entradas[i].0.clone();
            let t = entradas[i].1;
            assert(entradas@.take(i + 1).drop_last() =~= entradas@.take(i as int));
            texto_u16_inserir(&mut token_map, s, t);
            i += 1;
        }
        assert(entradas@.take(entradas@.len() as int) =~= entradas@);
        NgramTokenizer { ngram_size, token_map }
    }

    /// As entradas (n-grama, token) do mapa, cada n-grama uma vez.
    pub fn entradas(&self) -> (r: Vec<(String, Token)>)
        ensures
            mapa_de_tokens(r@) == self.tokens(),
    {
        let r = texto_u16_entradas(&self.token_map);
        proof {
            let e = pares_tokens(r@);
            let m = self.tokens();
            assert forall|i: int, j: int| 0 <= i < j < e.len() implies #[trigger] e[i].0 != #[trigger] e[j].0 by {
                assert(r@[i].0@ != r@[j].0@);
            }
            assert forall|i: int| 0 <= i < e.len() implies m.contains_key(#[trigger] e[i].0) && m[e[i].0] == e[i].1 by {
                assert(m.contains_key(r@[i].0@));
            }
            assert forall|k: Seq<char>| m.contains_key(k) implies exists|i: int| 0 <= i < e.len() && #[trigger] e[i].0 == k by {
                let i = choose|i: int| 0 <= i < r@.len() && #[trigger] r@[i].0@ == k;
                assert(e[i].0 == k);
            }
            lema_mapa_de_entradas(e, m);
            lema_mapa_de_tokens(r@);
        }
        r
    }

    /// Os tokens dos n-gramas de `text` que já estão no mapa, em ordem;
    /// n-gramas desconhecidos são ignorados.
    pub fn tokenize_search(&self, text: &str) -> (r: Vec<Token>)
        requires
            janelas_em_fronteira(text.spec_bytes(), self.ngram_size as nat),
            ngramas_cabem(text.spec_bytes(), self.ngram_size as nat),
        ensures
            r@ == tokens_conhecidos(ngramas(text.spec_bytes(), self.ngram_size as nat), self.tokens()),
    {
        let mut it = NgramIter::new(text, self.ngram_size);
        let ngs = it.coletar();
        let ghost todos = ngramas(text.spec_bytes(), self.ngram_size as nat);
        let mut r: Vec<Token> = Vec::new();
        let mut i: usize = 0;
        while i < ngs.len()
            invariant
                i <= ngs@.len(),
                ngs@.len() == todos.len(),
                forall|k: int| 0 <= k < ngs@.len() ==> #[trigger] ngs@[k]@ == todos[k],
                r@ == tokens_conhecidos(todos.take(i as int), self.tokens()),
            decreases ngs@.len() - i,
        {
            assert(todos.take(i + 1).drop_last() =~= todos.take(i as int));
            assert(todos.take(i + 1).last() == ngs@[i as int]@);
            if let Some(t) = texto_u16_obter(&self.token_map, ngs[i]) {
                r.push(t);
            }
            i += 1;
        }
        assert(todos.take(ngs@.len() as int) =~= todos);
        r
    }

    /// Interna cada n-grama de `text`, em ordem, e devolve os tokens.
    pub fn tokenize_index(&mut self, text: &str) -> (r: Vec<Token>)
        requires
            old(self).wf(),
            janelas_em_fronteira(text.spec_bytes(), old(self).ngram_size as nat),
            ngramas_cabem(text.spec_bytes(), old(self).ngram_size as nat),
        ensures
            final(self).wf(),
            final(self).ngram_size == old(self).ngram_size,
            (final(self).tokens(), r@) == tokens_indexados(
                ngramas(text.spec_bytes(), old(self).ngram_size as nat),
                old(self).tokens(),
            ),
    {
        let mut it = NgramIter::new(text, self.ngram_size);
        let ngs = it.coletar();
        let ghost todos = ngramas(text.spec_bytes(), self.ngram_size as nat);
        let mut r: Vec<Token> = Vec::new();
        let mut i: usize = 0;
        while i < ngs.len()
            invariant
                i <= ngs@.len(),
                ngs@.len() == todos.len(),
                forall|k: int| 0 <= k < ngs@.len() ==> #[trigger] ngs@[k]@ == todos[k],
                self.wf(),
                self.ngram_size == old(self).ngram_size,
                (self.tokens(), r@) == tokens_indexados(todos.take(i as int), old(self).tokens()),
            decreases ngs@.len() - i,
        {
            assert(todos.take(i + 1).drop_last() =~= todos.take(i as int));
            assert(todos.take(i + 1).last() == ngs@[i as int]@);
            let t = self.intern(ngs[i]);
            r.push(t);
            i += 1;
        }
        assert(todos.take(ngs@.len() as int) =~= todos);
        r
    }

    /// O token de `s`; um n-grama novo recebe o próximo token livre.
    pub fn intern(&mut self, s: &str) -> (r: Token)
        requires
            old(self).wf(),
        ensures
            final(self).wf(),
            final(self).ngram_size == old(self).ngram_size,
            (final(self).tokens(), r) == intern_modelo(old(self).tokens(), s@),
    {
        if let Some(id) = texto_u16_obter(&self.token_map, s) {
            return id;
        }
        let id = texto_u16_tamanho(&self.token_map) as Token;
        texto_u16_inserir(&mut self.token_map, s.to_owned(), id);
        id
    }

    /// Libera a capacidade sobrando do mapa de tokens.
    pub fn shrink_to_fit(&mut self)
        requires
            old(self).wf(),
        ensures
            final(self).wf(),
            final(self).ngram_size == old(self).ngram_size,
            final(self).tokens() == old(self).tokens(),
    {
        texto_u16_encolher(&mut self.token_map);
    }
}

/// Internar duas vezes o mesmo n-grama é o mesmo que interná-lo uma vez.
pub proof fn lei_intern_idempotente(m: Map<Seq<char>, u16>, s: Seq<char>)
    ensures
        ({
            let (m1, t1) = intern_modelo(m, s);
            intern_modelo(m1, s) == (m1, t1)
        }),
{
}

/// Internar só acrescenta: o mapa de antes continua dentro do de depois.
proof fn lema_indexados_crescem(ngs: Seq<Seq<char>>, m: Map<Seq<char>, u16>)
    ensures
        forall|k: Seq<char>|
            #[trigger] m.contains_key(k) ==> tokens_indexados(ngs, m).0.contains_key(k)
                && tokens_indexados(ngs, m).0[k] == m[k],
        forall|i: int| 0 <= i < ngs.len() ==> #[trigger] tokens_indexados(ngs, m).0.contains_key(ngs[i]),
        tokens_indexados(ngs, m).1.len() == ngs.len(),
    decreases ngs.len(),
{
    if ngs.len() > 0 {
        let n0 = ngs.drop_last();
        lema_indexados_crescem(n0, m);
        let m1 = tokens_indexados(n0, m).0;
        assert forall|i: int| 0 <= i < ngs.len() implies #[trigger] tokens_indexados(ngs, m).0.contains_key(ngs[i]) by {
            if i < ngs.len() - 1 {
                assert(n0[i] == ngs[i]);
                assert(m1.contains_key(n0[i]));
            }
        }
    }
}

proof fn lema_conhecidos_apos_indexar(ngs: Seq<Seq<char>>, m: Map<Seq<char>, u16>, mf: Map<Seq<char>, u16>)
    requires
        forall|k: Seq<char>|
            #[trigger] tokens_indexados(ngs, m).0.contains_key(k) ==> mf.contains_key(k) && mf[k]
                == tokens_indexados(ngs, m).0[k],
    ensures
        tokens_conhecidos(ngs, mf) == tokens_indexados(ngs, m).1,
    decreases ngs.len(),
{
    if ngs.len() > 0 {
        let n0 = ngs.drop_last();
        let m1 = tokens_indexados(n0, m).0;
        let m2 = tokens_indexados(ngs, m).0;
        assert forall|k: Seq<char>| #[trigger] m1.contains_key(k) implies mf.contains_key(k) && mf[k] == m1[k] by {
            assert(m2.contains_key(k) && m2[k] == m1[k]);
        }
        lema_conhecidos_apos_indexar(n0, m, mf);
        assert(m2.contains_key(ngs.last()));
    }
}

/// Depois de indexar os n-gramas de um texto, buscar os mesmos n-gramas dá
/// os mesmos tokens, na mesma ordem, um por n-grama.
pub proof fn lei_busca_apos_indexacao(ngs: Seq<Seq<char>>, m: Map<Seq<char>, u16>)
    ensures
        tokens_conhecidos(ngs, tokens_indexados(ngs, m).0) == tokens_indexados(ngs, m).1,
        tokens_indexados(ngs, m).1.len() == ngs.len(),
{
    lema_indexados_crescem(ngs, m);
    lema_conhecidos_apos_indexar(ngs, m, tokens_indexados(ngs, m).0);
}

/// Os pares (n-grama visto como sequência, token).
pub open spec fn pares_tokens(e: Seq<(String, u16)>) -> Seq<(Seq<char>, u16)> {
    Seq::new(e.len(), |i: int| (e[i].0@, e[i].1))
}

/// O mapa das entradas é o mapa dos seus pares.
pub proof fn lema_mapa_de_tokens(e: Seq<(String, u16)>)
    ensures
        mapa_de_tokens(e) == mapa_de(pares_tokens(e)),
    decreases e.len(),
{
    if e.len() > 0 {
        lema_mapa_de_tokens(e.drop_last());
        assert(pares_tokens(e).drop_last() =~= pares_tokens(e.drop_last()));
    }
}

} // verus!
