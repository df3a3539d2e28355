//! Padronização dos textos de busca (maiúsculas sem acento, espaços
//! simples) e leitura de CEPs.
use vstd::prelude::*;
use vstd::std_specs::iter::IteratorSpec;
use vstd::string::StringSliceAdditionalSpecFns;
use vstd::utf8::{decode_utf8, encode_utf8, is_ascii_chars};

use crate::busca_fuzzy::string_pool::texto_de_bytes;

verus! {

broadcast use vstd::string::axiom_spec_iter, vstd::string::next_postcondition;

/// Os caracteres de `s`, em ordem.
fn caracteres(s: &str) -> (r: Vec<char>)
    ensures
        r@ == s@,
{
    let mut r: Vec<char> = Vec::new();
    for c in iter: s.chars()
        invariant
            r@ == iter.seq().take(iter.index() as int),
    {
        r.push(c);
    }
    r
}

/// O caractere padronizado: letras sem acento em maiúsculas, dígitos
/// mantidos, e qualquer outro caractere vira espaço.
pub open spec fn char_padrao(c: char) -> char {
    let u = c as u32;
    if 'a' <= c && c <= 'z' {
        (u - 32) as char
    } else if ('A' <= c && c <= 'Z') || ('0' <= c && c <= '9') {
        c
    } else if (0xC0 <= u && u <= 0xC4) || (0xE0 <= u && u <= 0xE4) {
        'A'
    } else if u == 0xC7 || u == 0xE7 {
        'C'
    } else if (0xC8 <= u && u <= 0xCB) || (0xE8 <= u && u <= 0xEB) {
        'E'
    } else if (0xCC <= u && u <= 0xCF) || (0xEC <= u && u <= 0xEF) {
        'I'
    } else if u == 0xD1 || u == 0xF1 {
        'N'
    } else if (0xD2 <= u && u <= 0xD6) || (0xF2 <= u && u <= 0xF6) {
        'O'
    } else if (0xD9 <= u && u <= 0xDC) || (0xF9 <= u && u <= 0xFC) {
        'U'
    } else {
        ' '
    }
}

/// A padronização não distingue maiúsculas de minúsculas: cada letra
/// minúscula, ASCII ou acentuada do Latin-1 (`à`..`þ`, menos `÷`), dá o
/// mesmo que a maiúscula correspondente (32 posições antes). O resultado é
/// sempre um espaço, um dígito ou uma letra maiúscula ASCII, e padronizar de
/// novo não o muda.
pub proof fn lei_padrao_caixa(c: char)
    ensures
        ('a' <= c <= 'z' || (0xE0 <= (c as u32) <= 0xFE && (c as u32) != 0xF7)) ==> char_padrao(c)
            == char_padrao(((c as u32) - 32) as char),
        char_padrao(c) == ' ' || ('0' <= char_padrao(c) <= '9') || ('A' <= char_padrao(c) <= 'Z'),
        char_padrao(char_padrao(c)) == char_padrao(c),
{
}

/// A padronização tira os acentos: cada vogal acentuada, `ç` e `ñ`
/// (maiúsculas ou minúsculas) dão a letra base maiúscula, como a letra sem
/// acento dá.
pub proof fn lei_padrao_sem_acento(c: char)
    ensures
        (0xC0 <= (c as u32) <= 0xC4 || 0xE0 <= (c as u32) <= 0xE4) ==> char_padrao(c) == char_padrao('a'),
        ((c as u32) == 0xC7 || (c as u32) == 0xE7) ==> char_padrao(c) == char_padrao('c'),
        (0xC8 <= (c as u32) <= 0xCB || 0xE8 <= (c as u32) <= 0xEB) ==> char_padrao(c) == char_padrao('e'),
        (0xCC <= (c as u32) <= 0xCF || 0xEC <= (c as u32) <= 0xEF) ==> char_padrao(c) == char_padrao('i'),
        ((c as u32) == 0xD1 || (c as u32) == 0xF1) ==> char_padrao(c) == char_padrao('n'),
        (0xD2 <= (c as u32) <= 0xD6 || 0xF2 <= (c as u32) <= 0xF6) ==> char_padrao(c) == char_padrao('o'),
        (0xD9 <= (c as u32) <= 0xDC || 0xF9 <= (c as u32) <= 0xFC) ==> char_padrao(c) == char_padrao('u'),
{
}

/// Textos cujos caracteres se padronizam igualmente, um a um (por exemplo,
/// que só diferem em maiúsculas e acentos), têm a mesma padronização.
pub proof fn lei_padronizar_sem_caixa_nem_acento(s1: Seq<char>, s2: Seq<char>)
    requires
        s1.len() == s2.len(),
        forall|i: int| 0 <= i < s1.len() ==> char_padrao(#[trigger] s1[i]) == char_padrao(s2[i]),
    ensures
        padronizar_modelo(s1) == padronizar_modelo(s2),
{
    assert(s1.map_values(|c: char| char_padrao(c)) =~= s2.map_values(|c: char| char_padrao(c)));
}

/// Junta os espaços: tira os do começo e do fim e deixa um só entre palavras.
/// Devolve o texto e se há um espaço pendente (a escrever antes da próxima palavra).
pub open spec fn compactar_estado(s: Seq<char>) -> (Seq<char>, bool)
    decreases s.len(),
{
    if s.len() == 0 {
        (Seq::empty(), false)
    } else {
        let (out, pend) = compactar_estado(s.drop_last());
        let c = s.last();
        if c == ' ' {
            (out, out.len() > 0)
        } else if pend {
            (out.push(' ').push(c), false)
        } else {
            (out.push(c), false)
        }
    }
}

/// O texto padronizado: cada caractere padronizado e os espaços juntados.
pub open spec fn padronizar_modelo(s: Seq<char>) -> Seq<char> {
    compactar_estado(s.map_values(|c: char| char_padrao(c))).0
}

proof fn lema_char_padrao_ascii(c: char)
    ensures
        (char_padrao(c) as u32) < 128,
{
}

/// `c` padronizado.
fn padronizar_char(c: char) -> (r: char)
    ensures
        r == char_padrao(c),
{
    let u = c as u32;
    if 'a' <= c && c <= 'z' {
        ((u - 32) as u8) as char
    } else if ('A' <= c && c <= 'Z') || ('0' <= c && c <= '9') {
        c
    } else if (0xC0 <= u && u <= 0xC4) || (0xE0 <= u && u <= 0xE4) {
        'A'
    } else if u == 0xC7 || u == 0xE7 {
        'C'
    } else if (0xC8 <= u && u <= 0xCB) || (0xE8 <= u && u <= 0xEB) {
        'E'
    } else if (0xCC <= u && u <= 0xCF) || (0xEC <= u && u <= 0xEF) {
        'I'
    } else if u == 0xD1 || u == 0xF1 {
        'N'
    } else if (0xD2 <= u && u <= 0xD6) || (0xF2 <= u && u <= 0xF6) {
        'O'
    } else if (0xD9 <= u && u <= 0xDC) || (0xF9 <= u && u <= 0xFC) {
        'U'
    } else {
        ' '
    }
}

/// Texto padronizado: maiúsculas sem acento, só letras, dígitos e espaços
/// simples entre palavras.
pub fn padronizar_texto(s: &str) -> (r: String)
    ensures
        r@ == padronizar_modelo(s@),
        is_ascii_chars(r@),
        r@.len() <= s@.len(),
{
    let cs = caracteres(s);
    let ghost norm = s@.map_values(|c: char| char_padrao(c));
    let mut bytes: Vec<u8> = Vec::new();
    let ghost mut out: Seq<char> = Seq::empty();
    let mut pend = false;
    let mut i: usize = 0;
    while i < cs.len()
        invariant
            i <= cs@.len(),
            cs@ == s@,
            norm == s@.map_values(|c: char| char_padrao(c)),
            (out, pend) == compactar_estado(norm.take(i as int)),
            is_ascii_chars(out),
            bytes@.len() == out.len(),
            out.len() + (if pend { 1int } else { 0int }) <= i,
            forall|k: int| 0 <= k < out.len() ==> bytes@[k] == #[trigger] out[k] as u8,
        decreases cs@.len() - i,
    {
        let c = padronizar_char(cs[i]);
        proof {
            lema_char_padrao_ascii(cs@[i as int]);
            assert(norm.take(i + 1).drop_last() =~= norm.take(i as int));
            assert(norm.take(i + 1).last() == c);
        }
        if c == ' ' {
            pend = bytes.len() > 0;
        } else {
            if pend {
                bytes.push(32u8);
                proof {
                    out = out.push(' ');
                }
            }
            bytes.push(c as u8);
            proof {
                out = out.push(c);
            }
            pend = false;
        }
        i += 1;
    }
    assert(norm.take(cs@.len() as int) =~= norm);
    proof {
        vstd::utf8::is_ascii_chars_encode_utf8(out);
        assert(bytes@ =~= encode_utf8(out));
    }
    match texto_de_bytes(bytes.as_slice()) {
        Some(t) => {
            proof {
                vstd::utf8::encode_utf8_decode_utf8(t@);
                vstd::utf8::encode_utf8_decode_utf8(out);
            }
            t.to_owned()
        },
        None => {
            proof {
                vstd::utf8::encode_utf8_valid_utf8(out);
            }
            assert(false);
            String::new()
        },
    }
}

/// A sigla de um estado brasileiro escrito por extenso (já padronizado);
/// qualquer outro texto fica como está.
pub open spec fn sigla_modelo(n: Seq<char>) -> Seq<char> {
    if n == "ACRE"@ {
        "AC"@
    } else if n == "ALAGOAS"@ {
        "AL"@
    } else if n == "AMAPA"@ {
        "AP"@
    } else if n == "AMAZONAS"@ {
        "AM"@
    } else if n == "BAHIA"@ {
        "BA"@
    } else if n == "CEARA"@ {
        "CE"@
    } else if n == "DISTRITO FEDERAL"@ {
        "DF"@
    } else if n == "ESPIRITO SANTO"@ {
        "ES"@
    } else if n == "GOIAS"@ {
        "GO"@
    } else if n == "MARANHAO"@ {
        "MA"@
    } else if n == "MATO GROSSO"@ {
        "MT"@
    } else if n == "MATO GROSSO DO SUL"@ {
        "MS"@
    } else if n == "MINAS GERAIS"@ {
        "MG"@
    } else if n == "PARA"@ {
        "PA"@
    } else if n == "PARAIBA"@ {
        "PB"@
    } else if n == "PARANA"@ {
        "PR"@
    } else if n == "PERNAMBUCO"@ {
        "PE"@
    } else if n == "PIAUI"@ {
        "PI"@
    } else if n == "RIO DE JANEIRO"@ {
        "RJ"@
    } else if n == "RIO GRANDE DO NORTE"@ {
        "RN"@
    } else if n == "RIO GRANDE DO SUL"@ {
        "RS"@
    } else if n == "RONDONIA"@ {
        "RO"@
    } else if n == "RORAIMA"@ {
        "RR"@
    } else if n == "SANTA CATARINA"@ {
        "SC"@
    } else if n == "SAO PAULO"@ {
        "SP"@
    } else if n == "SERGIPE"@ {
        "SE"@
    } else if n == "TOCANTINS"@ {
        "TO"@
    } else {
        n
    }
}

/// `a` e `b` têm os mesmos caracteres.
fn mesmo_texto(a: &str, b: &str) -> (r: bool)
    ensures
        r == (a@ == b@),
{
    let x = a.as_bytes();
    let y = b.as_bytes();
    proof {
        vstd::utf8::encode_utf8_decode_utf8(a@);
        vstd::utf8::encode_utf8_decode_utf8(b@);
    }
    if x.len() != y.len() {
        return false;
    }
    let mut i: usize = 0;
    while i < x.len()
        invariant
            i <= x@.len(),
            x@.len() == y@.len(),
            x@ == a.spec_bytes(),
            y@ == b.spec_bytes(),
            decode_utf8(a.spec_bytes()) == a@,
            decode_utf8(b.spec_bytes()) == b@,
            forall|k: int| 0 <= k < i ==> x@[k] == y@[k],
        decreases x@.len() - i,
    {
        if x[i] != y[i] {
            return false;
        }
        i += 1;
    }
    assert(x@ =~= y@);
    true
}

/// O estado padronizado, trocado pela sigla quando escrito por extenso.
pub fn padronizar_estados_para_sigla(estado: &str) -> (r: String)
    ensures
        r@ == sigla_modelo(padronizar_modelo(estado@)),
{
    let n = padronizar_texto(estado);
    let t = n.as_str();
    if mesmo_texto(t, "ACRE") {
        "AC".to_owned()
    } else if mesmo_texto(t, "ALAGOAS") {
        "AL".to_owned()
    } else if mesmo_texto(t, "AMAPA") {
        "AP".to_owned()
    } else if mesmo_texto(t, "AMAZONAS") {
        "AM".to_owned()
    } else if mesmo_texto(t, "BAHIA") {
        "BA".to_owned()
    } else if mesmo_texto(t, "CEARA") {
        "CE".to_owned()
    } else if mesmo_texto(t, "DISTRITO FEDERAL") {
        "DF".to_owned()
    } else if mesmo_texto(t, "ESPIRITO SANTO") {
        "ES".to_owned()
    } else if mesmo_texto(t, "GOIAS") {
        "GO".to_owned()
    } else if mesmo_texto(t, "MARANHAO") {
        "MA".to_owned()
    } else if mesmo_texto(t, "MATO GROSSO") {
        "MT".to_owned()
    } else if mesmo_texto(t, "MATO GROSSO DO SUL") {
        "MS".to_owned()
    } else if mesmo_texto(t, "MINAS GERAIS") {
        "MG".to_owned()
    } else if mesmo_texto(t, "PARA") {
        "PA".to_owned()
    } else if mesmo_texto(t, "PARAIBA") {
        "PB".to_owned()
    } else if mesmo_texto(t, "PARANA") {
        "PR".to_owned()
    } else if mesmo_texto(t, "PERNAMBUCO") {
        "PE".to_owned()
    } else if mesmo_texto(t, "PIAUI") {
        "PI".to_owned()
    } else if mesmo_texto(t, "RIO DE JANEIRO") {
        "RJ".to_owned()
    } else if mesmo_texto(t, "RIO GRANDE DO NORTE") {
        "RN".to_owned()
    } else if mesmo_texto(t, "RIO GRANDE DO SUL") {
        "RS".to_owned()
    } else if mesmo_texto(t, "RONDONIA") {
        "RO".to_owned()
    } else if mesmo_texto(t, "RORAIMA") {
        "RR".to_owned()
    } else if mesmo_texto(t, "SANTA CATARINA") {
        "SC".to_owned()
    } else if mesmo_texto(t, "SAO PAULO") {
        "SP".to_owned()
    } else if mesmo_texto(t, "SERGIPE") {
        "SE".to_owned()
    } else if mesmo_texto(t, "TOCANTINS") {
        "TO".to_owned()
    } else {
        n
    }
}

/// Logradouro padronizado.
pub fn padronizar_logradouros(s: &str) -> (r: String)
    ensures
        r@ == padronizar_modelo(s@),
        is_ascii_chars(r@),
        r@.len() <= s@.len(),
{
    padronizar_texto(s)
}

/// Município padronizado.
pub fn padronizar_municipios(s: &str) -> (r: String)
    ensures
        r@ == padronizar_modelo(s@),
{
    padronizar_texto(s)
}

/// Bairro (localidade) padronizado.
pub fn padronizar_bairros(s: &str) -> (r: String)
    ensures
        r@ == padronizar_modelo(s@),
{
    padronizar_texto(s)
}

/// Os dígitos de um CEP, ignorando os separadores `-`, `.` e espaço;
/// `None` se houver qualquer outro caractere.
pub open spec fn digitos_cep(s: Seq<char>) -> Option<Seq<u32>>
    decreases s.len(),
{
    if s.len() == 0 {
        Some(Seq::empty())
    } else {
        match digitos_cep(s.drop_last()) {
            None => None,
            Some(d) => {
                let c = s.last();
                if '0' <= c && c <= '9' {
                    Some(d.push((c as u32 - '0' as u32) as u32))
                } else if c == '-' || c == '.' || c == ' ' {
                    Some(d)
                } else {
                    None
                }
            },
        }
    }
}

/// O número formado por uma sequência de dígitos decimais.
pub open spec fn valor_decimal(d: Seq<u32>) -> nat
    decreases d.len(),
{
    if d.len() == 0 {
        0
    } else {
        (valor_decimal(d.drop_last()) * 10 + d.last()) as nat
    }
}

/// O CEP como número: de 1 a 8 dígitos, com separadores permitidos.
pub open spec fn cep_modelo(s: Seq<char>) -> Option<u32> {
    match digitos_cep(s) {
        Some(d) => if 1 <= d.len() <= 8 {
            Some(valor_decimal(d) as u32)
        } else {
            None
        },
        None => None,
    }
}

proof fn lema_digitos_prefixo_invalido(s: Seq<char>, k: int)
    requires
        0 <= k <= s.len(),
        digitos_cep(s.take(k)) is None,
    ensures
        digitos_cep(s) is None,
    decreases s.len() - k,
{
    if k < s.len() {
        assert(s.take(k + 1).drop_last() =~= s.take(k));
        lema_digitos_prefixo_invalido(s, k + 1);
    } else {
        assert(s.take(k) =~= s);
    }
}

/// `10^n`.
pub open spec fn pot10(n: nat) -> nat
    decreases n,
{
    if n == 0 {
        1
    } else {
        10 * pot10((n - 1) as nat)
    }
}

proof fn lema_valor_limite(d: Seq<u32>)
    requires
        forall|i: int| 0 <= i < d.len() ==> d[i] < 10,
    ensures
        valor_decimal(d) < pot10(d.len()),
    decreases d.len(),
{
    if d.len() > 0 {
        lema_valor_limite(d.drop_last());
    }
}

proof fn lema_pot10_crescente(a: nat, b: nat)
    requires
        a <= b,
    ensures
        pot10(a) <= pot10(b),
    decreases b,
{
    if a < b {
        lema_pot10_crescente(a, (b - 1) as nat);
    }
}

/// O CEP como número, se for válido.
pub fn cep_para_numero(cep: &str) -> (r: Option<u32>)
    ensures
        r == cep_modelo(cep@),
{
    let cs = caracteres(cep);
    let mut qtd: usize = 0;
    let mut valor: u32 = 0;
    let ghost mut d: Seq<u32> = Seq::empty();
    let mut i: usize = 0;
    while i < cs.len()
        invariant
            i <= cs@.len(),
            cs@ == cep@,
            digitos_cep(cep@.take(i as int)) == Some(d),
            qtd == d.len(),
            qtd <= i,
            forall|k: int| 0 <= k < d.len() ==> #[trigger] d[k] < 10,
            qtd <= 8 ==> valor == valor_decimal(d),
        decreases cs@.len() - i,
    {
        let c = cs[i];
        assert(cep@.take(i + 1).drop_last() =~= cep@.take(i as int));
        assert(cep@.take(i + 1).last() == c);
        if '0' <= c && c <= '9' {
            let dig = (c as u32) - ('0' as u32);
            if qtd < 8 {
                proof {
                    lema_valor_limite(d);
                    lema_pot10_crescente(d.len(), 7);
                    reveal_with_fuel(pot10, 8);
                }
                valor = valor * 10 + dig;
            }
            proof {
                let d0 = d;
                d = d.push(dig);
                assert(d.drop_last() =~= d0);
            }
            qtd += 1;
        } else if c == '-' || c == '.' || c == ' ' {
        } else {
            proof {
                lema_digitos_prefixo_invalido(cep@, i + 1);
            }
            return None;
        }
        i += 1;
    }
    assert(cep@.take(cs@.len() as int) =~= cep@);
    if qtd >= 1 && qtd <= 8 {
        Some(valor)
    } else {
        None
    }
}

/// Um caractere que a padronização pode produzir: letra maiúscula sem
/// acento, dígito ou espaço.
pub open spec fn char_de_padrao(c: char) -> bool {
    ('A' <= c && c <= 'Z') || ('0' <= c && c <= '9') || c == ' '
}

/// Um texto sem espaço no começo, no fim, nem dois espaços seguidos.
pub open spec fn compacto(t: Seq<char>) -> bool {
    &&& t.len() > 0 ==> t[0] != ' ' && t[t.len() - 1] != ' '
    &&& forall|i: int| 0 <= i < t.len() - 1 ==> !(#[trigger] t[i] == ' ' && t[i + 1] == ' ')
}

proof fn lema_char_padrao_de_padrao(c: char)
    ensures
        char_de_padrao(char_padrao(c)),
        char_de_padrao(c) ==> char_padrao(c) == c,
{
}

proof fn lema_compactar_saida(s: Seq<char>)
    ensures
        compacto(compactar_estado(s).0),
        compactar_estado(s).1 ==> compactar_estado(s).0.len() > 0,
        forall|i: int|
            0 <= i < compactar_estado(s).0.len() ==> #[trigger] compactar_estado(s).0[i] == ' '
                || s.contains(compactar_estado(s).0[i]),
    decreases s.len(),
{
    if s.len() > 0 {
        let s0 = s.drop_last();
        let c = s.last();
        lema_compactar_saida(s0);
        let (out0, p0) = compactar_estado(s0);
        let out = compactar_estado(s).0;
        assert forall|i: int| 0 <= i < out.len() implies #[trigger] out[i] == ' ' || s.contains(out[i]) by {
            if i < out0.len() && out[i] != ' ' {
                assert(out[i] == out0[i]);
                let k = choose|k: int| 0 <= k < s0.len() && s0[k] == out0[i];
                assert(s[k] == out0[i]);
            } else if out[i] != ' ' {
                assert(out[i] == c);
                assert(s[s.len() - 1] == c);
            }
        }
        if c != ' ' {
            assert forall|i: int| 0 <= i < out.len() - 1 implies !(#[trigger] out[i] == ' ' && out[i + 1] == ' ') by {
                if i < out0.len() - 1 {
                    assert(out[i] == out0[i] && out[i + 1] == out0[i + 1]);
                }
            }
        }
    }
}

proof fn lema_compactar_fixo(t: Seq<char>)
    requires
        compacto(t),
    ensures
        compactar_estado(t) == (t, false),
    decreases t.len(), 1int,
{
    if t.len() > 0 {
        let t0 = t.drop_last();
        let c = t.last();
        assert(c == t[t.len() - 1]);
        if t0.len() == 0 {
            assert(compactar_estado(t0) == (Seq::<char>::empty(), false));
            assert(t0.push(c) =~= t);
        } else if t0.last() == ' ' {
            let u = t0.drop_last();
            assert(t0.last() == t[t.len() - 2]);
            assert(u.len() > 0) by {
                if u.len() == 0 {
                    assert(t[0] == ' ');
                }
            }
            assert(compacto(u)) by {
                assert(u[0] == t[0]);
                assert(u[u.len() - 1] == t[u.len() - 1]);
                assert(!(t[u.len() - 1] == ' ' && t[u.len() as int] == ' '));
                assert forall|i: int| 0 <= i < u.len() - 1 implies !(#[trigger] u[i] == ' ' && u[i + 1] == ' ') by {
                    assert(!(t[i] == ' ' && t[i + 1] == ' '));
                }
            }
            assert(u.push(' ') =~= t0);
            lema_compactar_espaco(u);
            assert(u.push(' ').push(c) =~= t);
        } else {
            assert(compacto(t0)) by {
                assert(t0[0] == t[0]);
                assert(t0[t0.len() - 1] == t0.last());
                assert forall|i: int| 0 <= i < t0.len() - 1 implies !(#[trigger] t0[i] == ' ' && t0[i + 1] == ' ') by {
                    assert(!(t[i] == ' ' && t[i + 1] == ' '));
                }
            }
            lema_compactar_fixo(t0);
            assert(t0.push(c) =~= t);
        }
    }
}

proof fn lema_compactar_espaco(u: Seq<char>)
    requires
        compacto(u),
        u.len() > 0,
    ensures
        compactar_estado(u.push(' ')) == (u, true),
    decreases u.len() + 1, 0int,
{
    lema_compactar_fixo(u);
    assert(u.push(' ').drop_last() =~= u);
}

/// Padronizar um texto já padronizado não o muda.
pub proof fn lei_padronizar_idempotente(s: Seq<char>)
    ensures
        padronizar_modelo(padronizar_modelo(s)) == padronizar_modelo(s),
        forall|i: int|
            0 <= i < padronizar_modelo(s).len() ==> char_de_padrao(#[trigger] padronizar_modelo(s)[i]),
{
    let m = s.map_values(|c: char| char_padrao(c));
    let t = padronizar_modelo(s);
    lema_compactar_saida(m);
    assert forall|i: int| 0 <= i < t.len() implies char_de_padrao(#[trigger] t[i]) by {
        if t[i] != ' ' {
            let k = choose|k: int| 0 <= k < m.len() && m[k] == t[i];
            lema_char_padrao_de_padrao(s[k]);
        }
    }
    let mt = t.map_values(|c: char| char_padrao(c));
    assert(mt =~= t) by {
        assert forall|i: int| 0 <= i < t.len() implies mt[i] == t[i] by {
            lema_char_padrao_de_padrao(t[i]);
        }
    }
    lema_compactar_fixo(t);
}

} // verus!
