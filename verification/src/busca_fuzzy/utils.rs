use vstd::prelude::*;

verus! {

/// Uma sequência está em ordem não decrescente.
pub open spec fn ordenada(s: Seq<u32>) -> bool {
    forall|i: int, j: int| 0 <= i <= j < s.len() ==> s[i] <= s[j]
}

/// Interseção de duas sequências ordenadas, no estilo de um merge:
/// cada elemento comum aparece tantas vezes quanto o menor número de
/// ocorrências nas duas entradas.
pub open spec fn intersecao(a: Seq<u32>, b: Seq<u32>) -> Seq<u32>
    decreases a.len() + b.len(),
{
    if a.len() == 0 || b.len() == 0 {
        Seq::empty()
    } else if a[0] < b[0] {
        intersecao(a.drop_first(), b)
    } else if a[0] > b[0] {
        intersecao(a, b.drop_first())
    } else {
        seq![a[0]] + intersecao(a.drop_first(), b.drop_first())
    }
}

/// Interseção de dois vetores ordenados.
pub fn intersect_sorted(a: &[u32], b: &[u32]) -> (out: Vec<u32>)
    ensures
        out@ == intersecao(a@, b@),
{
    let mut i: usize = 0;
    let mut j: usize = 0;
    let mut out: Vec<u32> = Vec::new();
    assert(a@.skip(0) == a@);
    assert(b@.skip(0) == b@);
    assert(out@ + intersecao(a@, b@) == intersecao(a@, b@));
    while i < a.len() && j < b.len()
        invariant
            i <= a.len(),
            j <= b.len(),
            out@ + intersecao(a@.skip(i as int), b@.skip(j as int)) == intersecao(a@, b@),
        decreases a.len() + b.len() - i - j,
    {
        let ghost sa = a@.skip(i as int);
        let ghost sb = b@.skip(j as int);
        assert(sa.drop_first() == a@.skip(i + 1));
        assert(sb.drop_first() == b@.skip(j + 1));
        if a[i] < b[j] {
            i += 1;
        } else if a[i] > b[j] {
            j += 1;
        } else {
            proof {
                assert(out@.push(a[i as int]) + intersecao(sa.drop_first(), sb.drop_first())
                    == out@ + intersecao(sa, sb));
            }
            out.push(a[i]);
            i += 1;
            j += 1;
        }
    }
    proof {
        assert(intersecao(a@.skip(i as int), b@.skip(j as int)) == Seq::<u32>::empty());
        assert(out@ + Seq::<u32>::empty() == out@);
    }
    out
}

/// Uma sequência em ordem estritamente crescente (ordenada e sem repetições).
pub open spec fn estritamente_crescente(s: Seq<u32>) -> bool {
    forall|i: int, j: int| 0 <= i < j < s.len() ==> s[i] < s[j]
}

/// Tira os repetidos de um vetor ordenado.
pub fn dedup_ordenado(v: &Vec<u32>) -> (r: Vec<u32>)
    requires
        ordenada(v@),
    ensures
        estritamente_crescente(r@),
        forall|x: u32| r@.contains(x) <==> v@.contains(x),
{
    let mut r: Vec<u32> = Vec::new();
    let mut i: usize = 0;
    while i < v.len()
        invariant
            i <= v@.len(),
            ordenada(v@),
            estritamente_crescente(r@),
            forall|x: u32| r@.contains(x) <==> v@.take(i as int).contains(x),
            r@.len() > 0 ==> i > 0 && r@.last() == v@[i - 1],
        decreases v@.len() - i,
    {
        let x = v[i];
        let ghost antes = r@;
        if r.len() == 0 || r[r.len() - 1] != x {
            r.push(x);
            proof {
                if antes.len() > 0 {
                    assert(antes.last() <= x);
                }
                assert forall|a: int, b: int| 0 <= a < b < r@.len() implies r@[a] < r@[b] by {
                    if b == r@.len() - 1 && a < b {
                        assert(antes[a] <= antes.last());
                    }
                }
            }
        }
        proof {
            assert(v@.take(i + 1) =~= v@.take(i as int).push(x));
            assert forall|y: u32| r@.contains(y) <==> v@.take(i + 1).contains(y) by {
                assert(v@.take(i + 1).contains(y) <==> (v@.take(i as int).contains(y) || y == x)) by {
                    if v@.take(i + 1).contains(y) && y != x {
                        let k = choose|k: int| 0 <= k < i + 1 && #[trigger] v@.take(i + 1)[k] == y;
                        assert(v@.take(i as int)[k] == y);
                    }
                    if v@.take(i as int).contains(y) {
                        let k = choose|k: int| 0 <= k < i && #[trigger] v@.take(i as int)[k] == y;
                        assert(v@.take(i + 1)[k] == y);
                    }
                    if y == x {
                        assert(v@.take(i + 1)[i as int] == y);
                    }
                }
                if r@.len() == antes.len() {
                    assert(r@ == antes);
                    assert(antes[antes.len() - 1] == x);
                } else {
                    assert(r@ == antes.push(x));
                    if r@.contains(y) && y != x {
                        let k = choose|k: int| 0 <= k < r@.len() && r@[k] == y;
                        assert(antes[k] == y);
                    }
                    if antes.contains(y) {
                        let k = choose|k: int| 0 <= k < antes.len() && antes[k] == y;
                        assert(r@[k] == y);
                    }
                    if y == x {
                        assert(r@[r@.len() - 1] == y);
                    }
                }
            }
        }
        i += 1;
    }
    assert(v@.take(v@.len() as int) =~= v@);
    r
}

/// Busca binária num vetor ordenado.
pub fn contem_ordenado(s: &[u32], x: u32) -> (r: bool)
    requires
        ordenada(s@),
    ensures
        r == s@.contains(x),
{
    let mut lo: usize = 0;
    let mut hi: usize = s.len();
    while lo < hi
        invariant
            lo <= hi <= s@.len(),
            ordenada(s@),
            forall|k: int| 0 <= k < lo ==> s@[k] < x,
            forall|k: int| hi <= k < s@.len() ==> s@[k] > x,
        decreases hi - lo,
    {
        let mid = lo + (hi - lo) / 2;
        if s[mid] == x {
            return true;
        } else if s[mid] < x {
            lo = mid + 1;
        } else {
            hi = mid;
        }
    }
    assert(!s@.contains(x)) by {
        if s@.contains(x) {
            let k = choose|k: int| 0 <= k < s@.len() && s@[k] == x;
        }
    }
    false
}

/// Os elementos da interseção estão nas duas entradas.
pub proof fn lema_intersecao_contida(a: Seq<u32>, b: Seq<u32>, x: u32)
    ensures
        intersecao(a, b).contains(x) ==> a.contains(x) && b.contains(x),
    decreases a.len() + b.len(),
{
    if a.len() == 0 || b.len() == 0 {
    } else if a[0] < b[0] {
        lema_intersecao_contida(a.drop_first(), b, x);
        if intersecao(a, b).contains(x) {
            assert(a.drop_first().contains(x));
            let k = choose|k: int| 0 <= k < a.drop_first().len() && a.drop_first()[k] == x;
            assert(a[k + 1] == x);
        }
    } else if a[0] > b[0] {
        lema_intersecao_contida(a, b.drop_first(), x);
        if intersecao(a, b).contains(x) {
            let k = choose|k: int| 0 <= k < b.drop_first().len() && b.drop_first()[k] == x;
            assert(b[k + 1] == x);
        }
    } else {
        lema_intersecao_contida(a.drop_first(), b.drop_first(), x);
        if intersecao(a, b).contains(x) && x != a[0] {
            let r = intersecao(a.drop_first(), b.drop_first());
            assert(intersecao(a, b) == seq![a[0]] + r);
            let k = choose|k: int| 0 <= k < intersecao(a, b).len() && intersecao(a, b)[k] == x;
            assert(r[k - 1] == x);
            let k1 = choose|k: int| 0 <= k < a.drop_first().len() && a.drop_first()[k] == x;
            assert(a[k1 + 1] == x);
            let k2 = choose|k: int| 0 <= k < b.drop_first().len() && b.drop_first()[k] == x;
            assert(b[k2 + 1] == x);
        }
        if x == a[0] {
            assert(a[0] == x);
            assert(b[0] == x);
        }
    }
}

/// A interseção de duas sequências ordenadas é ordenada, e um elemento
/// comum às duas está na interseção.
pub proof fn lema_intersecao_ordenada(a: Seq<u32>, b: Seq<u32>)
    requires
        ordenada(a),
        ordenada(b),
    ensures
        ordenada(intersecao(a, b)),
        forall|x: u32| a.contains(x) && b.contains(x) ==> #[trigger] intersecao(a, b).contains(x),
        forall|i: int| 0 <= i < intersecao(a, b).len() ==> a[0] <= #[trigger] intersecao(a, b)[i],
    decreases a.len() + b.len(),
{
    if a.len() == 0 || b.len() == 0 {
    } else if a[0] < b[0] {
        lema_intersecao_ordenada(a.drop_first(), b);
        assert forall|x: u32| a.contains(x) && b.contains(x) implies #[trigger] intersecao(a, b).contains(x) by {
            let k = choose|k: int| 0 <= k < a.len() && a[k] == x;
            let kb = choose|k: int| 0 <= k < b.len() && b[k] == x;
            assert(b[0] <= b[kb]);
            assert(k != 0);
            assert(a.drop_first()[k - 1] == x);
        }
        assert forall|i: int| 0 <= i < intersecao(a, b).len() implies a[0] <= #[trigger] intersecao(a, b)[i] by {
            assert(a[0] <= a[1]);
        }
    } else if a[0] > b[0] {
        lema_intersecao_ordenada(a, b.drop_first());
        assert forall|x: u32| a.contains(x) && b.contains(x) implies #[trigger] intersecao(a, b).contains(x) by {
            let k = choose|k: int| 0 <= k < b.len() && b[k] == x;
            let ka = choose|k: int| 0 <= k < a.len() && a[k] == x;
            assert(a[0] <= a[ka]);
            assert(k != 0);
            assert(b.drop_first()[k - 1] == x);
        }
    } else {
        lema_intersecao_ordenada(a.drop_first(), b.drop_first());
        let r = intersecao(a.drop_first(), b.drop_first());
        assert(intersecao(a, b) == seq![a[0]] + r);
        assert forall|x: u32| a.contains(x) && b.contains(x) implies #[trigger] intersecao(a, b).contains(x) by {
            if x != a[0] {
                let k = choose|k: int| 0 <= k < a.len() && a[k] == x;
                let kb = choose|k: int| 0 <= k < b.len() && b[k] == x;
                assert(a.drop_first()[k - 1] == x);
                assert(b.drop_first()[kb - 1] == x);
                assert(r.contains(x));
                let w = choose|w: int| 0 <= w < r.len() && r[w] == x;
                assert(intersecao(a, b)[w + 1] == x);
            } else {
                assert(intersecao(a, b)[0] == x);
            }
        }
        assert forall|i: int, j: int| 0 <= i <= j < intersecao(a, b).len() implies intersecao(a, b)[i] <= intersecao(a, b)[j] by {
            if i == 0 && j > 0 {
                if a.len() > 1 {
                    assert(a[0] <= a[1]);
                    assert(a.drop_first()[0] <= r[j - 1]);
                }
            }
        }
        assert forall|i: int| 0 <= i < intersecao(a, b).len() implies a[0] <= #[trigger] intersecao(a, b)[i] by {
            if i > 0 && a.len() > 1 {
                assert(a[0] <= a[1]);
                assert(a.drop_first()[0] <= r[i - 1]);
            }
        }
    }
}

/// Quantas vezes `v` aparece em `s`.
pub open spec fn ocorrencias(s: Seq<u32>, v: u32) -> nat
    decreases s.len(),
{
    if s.len() == 0 {
        0
    } else {
        (if s[0] == v { 1nat } else { 0nat }) + ocorrencias(s.drop_first(), v)
    }
}

/// O menor de dois naturais.
pub open spec fn menor(x: nat, y: nat) -> nat {
    if x <= y { x } else { y }
}

/// `x` aparece em `y` na mesma ordem, talvez com outros elementos entre os
/// seus (casando cada elemento de `x` com a primeira ocorrência possível).
pub open spec fn subsequencia(x: Seq<u32>, y: Seq<u32>) -> bool
    decreases y.len(),
{
    if x.len() == 0 {
        true
    } else if y.len() == 0 {
        false
    } else if x[0] == y[0] {
        subsequencia(x.drop_first(), y.drop_first())
    } else {
        subsequencia(x, y.drop_first())
    }
}

proof fn lema_ocorrencias_contem(s: Seq<u32>, v: u32)
    ensures
        s.contains(v) <==> ocorrencias(s, v) > 0,
    decreases s.len(),
{
    if s.len() > 0 {
        lema_ocorrencias_contem(s.drop_first(), v);
        if s.contains(v) && s[0] != v {
            let k = choose|k: int| 0 <= k < s.len() && s[k] == v;
            assert(s.drop_first()[k - 1] == v);
        }
        if s.drop_first().contains(v) {
            let k = choose|k: int| 0 <= k < s.drop_first().len() && s.drop_first()[k] == v;
            assert(s[k + 1] == v);
        }
    }
}

proof fn lema_ocorrencias_abaixo(s: Seq<u32>, v: u32)
    requires
        ordenada(s),
        s.len() > 0,
        v < s[0],
    ensures
        ocorrencias(s, v) == 0,
{
    lema_ocorrencias_contem(s, v);
    if s.contains(v) {
        let k = choose|k: int| 0 <= k < s.len() && s[k] == v;
        assert(s[0] <= s[k]);
    }
}

proof fn lema_ordenada_cauda(s: Seq<u32>)
    requires
        ordenada(s),
        s.len() > 0,
    ensures
        ordenada(s.drop_first()),
{
    assert forall|i: int, j: int| 0 <= i <= j < s.drop_first().len() implies s.drop_first()[i]
        <= s.drop_first()[j] by {
        assert(s[i + 1] <= s[j + 1]);
    }
}

/// Para entradas ordenadas, a interseção é a interseção de multiconjuntos:
/// cada valor aparece nela o menor dos números de vezes em que aparece nas
/// entradas. Por isso ela não é maior que nenhuma das entradas e é vazia
/// exatamente quando as entradas não têm valor em comum.
pub proof fn lei_intersecao_multiconjunto(a: Seq<u32>, b: Seq<u32>)
    requires
        ordenada(a),
        ordenada(b),
    ensures
        forall|v: u32|
            #[trigger] ocorrencias(intersecao(a, b), v) == menor(ocorrencias(a, v), ocorrencias(b, v)),
        intersecao(a, b).len() <= a.len(),
        intersecao(a, b).len() <= b.len(),
        intersecao(a, b).len() == 0 <==> !exists|v: u32| a.contains(v) && b.contains(v),
    decreases a.len() + b.len(),
{
    let r = intersecao(a, b);
    if a.len() == 0 || b.len() == 0 {
        assert forall|v: u32| #[trigger] ocorrencias(r, v) == menor(ocorrencias(a, v), ocorrencias(b, v)) by {
        }
    } else if a[0] < b[0] {
        lema_ordenada_cauda(a);
        lei_intersecao_multiconjunto(a.drop_first(), b);
        assert forall|v: u32| #[trigger] ocorrencias(r, v) == menor(ocorrencias(a, v), ocorrencias(b, v)) by {
            if v == a[0] {
                lema_ocorrencias_abaixo(b, v);
            }
        }
    } else if a[0] > b[0] {
        lema_ordenada_cauda(b);
        lei_intersecao_multiconjunto(a, b.drop_first());
        assert forall|v: u32| #[trigger] ocorrencias(r, v) == menor(ocorrencias(a, v), ocorrencias(b, v)) by {
            if v == b[0] {
                lema_ocorrencias_abaixo(a, v);
            }
        }
    } else {
        lema_ordenada_cauda(a);
        lema_ordenada_cauda(b);
        let r0 = intersecao(a.drop_first(), b.drop_first());
        lei_intersecao_multiconjunto(a.drop_first(), b.drop_first());
        assert(r == seq![a[0]] + r0);
        assert(r.drop_first() =~= r0);
        assert forall|v: u32| #[trigger] ocorrencias(r, v) == menor(ocorrencias(a, v), ocorrencias(b, v)) by {
            assert(ocorrencias(r, v) == (if r[0] == v { 1nat } else { 0nat }) + ocorrencias(r0, v));
        }
    }
    assert(r.len() == 0 <==> !exists|v: u32| a.contains(v) && b.contains(v)) by {
        if r.len() != 0 {
            lema_intersecao_contida(a, b, r[0]);
            assert(r.contains(r[0]));
        } else {
            assert forall|v: u32| !(a.contains(v) && b.contains(v)) by {
                lema_ocorrencias_contem(a, v);
                lema_ocorrencias_contem(b, v);
                lema_ocorrencias_contem(r, v);
                assert(ocorrencias(r, v) == menor(ocorrencias(a, v), ocorrencias(b, v)));
            }
        }
    }
}

proof fn lema_subsequencia_estende(x: Seq<u32>, y: Seq<u32>)
    requires
        y.len() > 0,
        subsequencia(x, y.drop_first()),
    ensures
        subsequencia(x, y),
    decreases y.len(), 0nat,
{
    if x.len() > 0 && x[0] == y[0] {
        lema_subsequencia_cauda(x, y.drop_first());
    }
}

proof fn lema_subsequencia_cauda(x: Seq<u32>, y: Seq<u32>)
    requires
        x.len() > 0,
        subsequencia(x, y),
    ensures
        subsequencia(x.drop_first(), y),
    decreases y.len(), 1nat,
{
    if x[0] == y[0] {
        lema_subsequencia_estende(x.drop_first(), y);
    } else {
        lema_subsequencia_cauda(x, y.drop_first());
        lema_subsequencia_estende(x.drop_first(), y);
    }
}

/// Para quaisquer entradas, ordenadas ou não, a interseção é uma
/// subsequência de cada uma delas: os seus elementos aparecem nas duas, na
/// mesma ordem.
pub proof fn lei_intersecao_subsequencia(a: Seq<u32>, b: Seq<u32>)
    ensures
        subsequencia(intersecao(a, b), a),
        subsequencia(intersecao(a, b), b),
    decreases a.len() + b.len(),
{
    if a.len() == 0 || b.len() == 0 {
    } else if a[0] < b[0] {
        lei_intersecao_subsequencia(a.drop_first(), b);
        lema_subsequencia_estende(intersecao(a, b), a);
    } else if a[0] > b[0] {
        lei_intersecao_subsequencia(a, b.drop_first());
        lema_subsequencia_estende(intersecao(a, b), b);
    } else {
        let r0 = intersecao(a.drop_first(), b.drop_first());
        lei_intersecao_subsequencia(a.drop_first(), b.drop_first());
        let r = intersecao(a, b);
        assert(r == seq![a[0]] + r0);
        assert(r.drop_first() =~= r0);
        assert(r[0] == a[0]);
    }
}

/// A interseção não depende da ordem dos argumentos.
pub proof fn lei_intersecao_comutativa(a: Seq<u32>, b: Seq<u32>)
    ensures
        intersecao(a, b) == intersecao(b, a),
    decreases a.len() + b.len(),
{
    if a.len() == 0 || b.len() == 0 {
    } else if a[0] < b[0] {
        lei_intersecao_comutativa(a.drop_first(), b);
    } else if a[0] > b[0] {
        lei_intersecao_comutativa(a, b.drop_first());
    } else {
        lei_intersecao_comutativa(a.drop_first(), b.drop_first());
    }
}

/// A interseção de uma sequência com ela mesma é a própria sequência, e
/// com a sequência vazia é vazia.
pub proof fn lei_intersecao_consigo(a: Seq<u32>)
    ensures
        intersecao(a, a) == a,
        intersecao(a, Seq::<u32>::empty()) == Seq::<u32>::empty(),
        intersecao(Seq::<u32>::empty(), a) == Seq::<u32>::empty(),
    decreases a.len(),
{
    if a.len() > 0 {
        lei_intersecao_consigo(a.drop_first());
        assert(seq![a[0]] + a.drop_first() =~= a);
    }
}

/// Chaves distintas têm valores distintos.
pub open spec fn mapa_injetivo<K>(m: Map<K, u16>) -> bool {
    forall|a: K, b: K| #[trigger] m.contains_key(a) && #[trigger] m.contains_key(b) && a != b ==> m[a] != m[b]
}

/// Todo valor é menor que o número de chaves (os valores são "ids" de
/// `0` até o tamanho do mapa).
pub open spec fn valores_abaixo_do_tamanho<K>(m: Map<K, u16>) -> bool {
    forall|a: K| #[trigger] m.contains_key(a) ==> m[a] < m.dom().len()
}

/// Dar a uma chave nova o número de chaves como valor mantém os valores
/// abaixo do tamanho e o mapa injetivo, e o valor novo é de nenhuma outra
/// chave.
pub proof fn lema_id_sequencial<K>(m: Map<K, u16>, k: K)
    requires
        m.dom().finite(),
        !m.contains_key(k),
        m.dom().len() < 0x10000,
        valores_abaixo_do_tamanho(m),
    ensures
        forall|a: K| #[trigger] m.contains_key(a) ==> m[a] != m.dom().len() as u16,
        m.insert(k, m.dom().len() as u16).dom().len() == m.dom().len() + 1,
        valores_abaixo_do_tamanho(m.insert(k, m.dom().len() as u16)),
        mapa_injetivo(m) ==> mapa_injetivo(m.insert(k, m.dom().len() as u16)),
{
    let m2 = m.insert(k, m.dom().len() as u16);
    assert(m2.dom() =~= m.dom().insert(k));
    assert forall|a: K, b: K| mapa_injetivo(m) && #[trigger] m2.contains_key(a) && #[trigger] m2.contains_key(b)
        && a != b implies m2[a] != m2[b] by {
        if a != k && b != k {
            assert(m.contains_key(a) && m.contains_key(b));
        }
    }
}

/// O mapa formado por pares (chave, valor), em ordem: uma chave repetida
/// substitui a anterior.
pub open spec fn mapa_de<K, V>(e: Seq<(K, V)>) -> Map<K, V>
    decreases e.len(),
{
    if e.len() == 0 {
        Map::empty()
    } else {
        mapa_de(e.drop_last()).insert(e.last().0, e.last().1)
    }
}

/// Pares de chaves distintas tirados de um mapa, que cobrem todas as suas
/// chaves, refazem o mapa.
pub proof fn lema_mapa_de_entradas<K, V>(e: Seq<(K, V)>, m: Map<K, V>)
    requires
        forall|i: int, j: int| 0 <= i < j < e.len() ==> #[trigger] e[i].0 != #[trigger] e[j].0,
        forall|i: int| 0 <= i < e.len() ==> m.contains_key(#[trigger] e[i].0) && m[e[i].0] == e[i].1,
        forall|k: K| m.contains_key(k) ==> exists|i: int| 0 <= i < e.len() && #[trigger] e[i].0 == k,
    ensures
        mapa_de(e) == m,
    decreases e.len(),
{
    if e.len() == 0 {
        assert(m =~= Map::empty()) by {
            assert forall|k: K| !m.contains_key(k) by {
                if m.contains_key(k) {
                    let i = choose|i: int| 0 <= i < e.len() && #[trigger] e[i].0 == k;
                }
            }
        }
    } else {
        let n = e.len() - 1;
        let l = e[n];
        let e0 = e.drop_last();
        let m0 = m.remove(l.0);
        assert forall|i: int, j: int| 0 <= i < j < e0.len() implies #[trigger] e0[i].0 != #[trigger] e0[j].0 by {
            assert(e0[i] == e[i] && e0[j] == e[j]);
        }
        assert forall|i: int| 0 <= i < e0.len() implies m0.contains_key(#[trigger] e0[i].0) && m0[e0[i].0] == e0[i].1 by {
            assert(e0[i] == e[i]);
            assert(e[i].0 != e[n].0);
        }
        assert forall|k: K| m0.contains_key(k) implies exists|i: int| 0 <= i < e0.len() && #[trigger] e0[i].0 == k by {
            let i = choose|i: int| 0 <= i < e.len() && #[trigger] e[i].0 == k;
            assert(i != n);
            assert(e0[i].0 == k);
        }
        lema_mapa_de_entradas(e0, m0);
        assert(m.contains_key(e[n].0));
        assert(mapa_de(e) =~= m);
    }
}

} // verus!
