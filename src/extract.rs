//! Splitting a decomposition string into its direct components.
//!
//! The scan is a two-state machine: outside an entity reference every
//! character other than a structural operator is a component of its own;
//! between `&` and `;` the characters are gathered into one component.
use vstd::prelude::*;
use crate::text::views;

verus! {

/// The state of the scan: components found so far, the entity reference
/// being gathered, and whether the scan is inside one.
pub type Scan = (Seq<Seq<char>>, Seq<char>, bool);

/// The structural operators, U+2FF0 to U+2FFF.
pub open spec fn is_operator(c: char) -> bool {
    0x2FF0 <= (c as u32) && (c as u32) <= 0x2FFF
}

/// `i` is the first position of `c` in `s`.
pub open spec fn first_at(s: Seq<char>, c: char, i: int) -> bool {
    0 <= i < s.len() && s[i] == c && forall|j: int| 0 <= j < i ==> s[j] != c
}

/// A hexadecimal digit, in either case.
pub open spec fn is_hex_digit(c: char) -> bool {
    ('0' <= c && c <= '9') || ('a' <= c && c <= 'f') || ('A' <= c && c <= 'F')
}

/// The value of a hexadecimal digit.
pub open spec fn hex_digit_value(c: char) -> int {
    if '0' <= c && c <= '9' {
        c as int - '0' as int
    } else if 'a' <= c && c <= 'f' {
        c as int - 'a' as int + 10
    } else {
        c as int - 'A' as int + 10
    }
}

/// The value of a hexadecimal numeral.
pub open spec fn hex_value(s: Seq<char>) -> int
    decreases s.len(),
{
    if s.len() == 0 {
        0
    } else {
        16 * hex_value(s.drop_last()) + hex_digit_value(s.last())
    }
}

/// The first `+` of `e` is at `p`, the first `;` after it `q` places
/// further on, and the code between them is a hexadecimal numeral whose
/// value lies in the operator range U+2FF0 to U+2FFF.
pub open spec fn operator_code_at(e: Seq<char>, p: int, q: int) -> bool {
    let code = e.subrange(p + 1, p + 1 + q);
    &&& first_at(e, '+', p)
    &&& first_at(e.subrange(p + 1, e.len() as int), ';', q)
    &&& code.len() > 0
    &&& forall|j: int| 0 <= j < code.len() ==> is_hex_digit(#[trigger] code[j])
    &&& 0x2FF0 <= hex_value(code) <= 0x2FFF
}

/// An entity reference that encodes a structural operator: it starts with
/// `&U-i`, and the code between the first `+` and the first `;` after it
/// is a hexadecimal numeral in the operator range.
pub open spec fn is_extended_indicator(e: Seq<char>) -> bool {
    &&& e.len() >= 4
    &&& e[0] == '&' && e[1] == 'U' && e[2] == '-' && e[3] == 'i'
    &&& exists|p: int, q: int| #[trigger] operator_code_at(e, p, q)
}

/// One step of the scan on character `c`.
pub open spec fn step(st: Scan, c: char) -> Scan {
    let (comps, cur, inside) = st;
    if c == '&' {
        (comps, cur.push(c), true)
    } else if c == ';' && inside {
        let tok = cur.push(c);
        (if is_extended_indicator(tok) { comps } else { comps.push(tok) }, Seq::empty(), false)
    } else if inside {
        (comps, cur.push(c), true)
    } else if !is_operator(c) {
        (comps.push(seq![c]), cur, false)
    } else {
        st
    }
}

/// The scan of `s` from state `st`.
pub open spec fn run(st: Scan, s: Seq<char>) -> Scan
    decreases s.len(),
{
    if s.len() == 0 {
        st
    } else {
        step(run(st, s.drop_last()), s.last())
    }
}

pub open spec fn start() -> Scan {
    (Seq::empty(), Seq::empty(), false)
}

/// The direct components of decomposition string `s`; an entity reference
/// left open at the end is kept as it stands.
pub open spec fn components(s: Seq<char>) -> Seq<Seq<char>> {
    let st = run(start(), s);
    if st.1.len() > 0 {
        st.0.push(st.1)
    } else {
        st.0
    }
}

/// Whether an entity reference encodes a structural operator rather than a
/// component.
pub fn is_extended_idc(entity: &str) -> (r: bool)
    ensures
        r == is_extended_indicator(entity@),
{
    let e = entity;
    let n = e.unicode_len();
    if n < 4 {
        return false;
    }
    if !(e.get_char(0) == '&' && e.get_char(1) == 'U' && e.get_char(2) == '-' && e.get_char(3) == 'i') {
        return false;
    }
    let mut p: usize = 0;
    while p < n && e.get_char(p) != '+'
        invariant
            n == e@.len(),
            p <= n,
            forall|j: int| 0 <= j < p ==> e@[j] != '+',
        decreases n - p,
    {
        p = p + 1;
    }
    if p == n {
        assert forall|p2: int, q2: int| !#[trigger] operator_code_at(e@, p2, q2) by {
            if first_at(e@, '+', p2) {
                assert(e@[p2] == '+');
            }
        }
        return false;
    }
    let ghost after = e@.subrange(p + 1, n as int);
    let mut q: usize = p + 1;
    while q < n && e.get_char(q) != ';'
        invariant
            n == e@.len(),
            p < q <= n,
            after == e@.subrange(p + 1, n as int),
            forall|j: int| p + 1 <= j < q ==> e@[j] != ';',
        decreases n - q,
    {
        q = q + 1;
    }
    proof {
        assert forall|p2: int| first_at(e@, '+', p2) implies p2 == p by {
            if p2 < p {
            } else if p2 > p {
                assert(e@[p as int] == '+');
            }
        }
    }
    if q == n {
        assert forall|p2: int, q2: int| !#[trigger] operator_code_at(e@, p2, q2) by {
            if first_at(e@, '+', p2) && first_at(e@.subrange(p2 + 1, n as int), ';', q2) {
                assert(after[q2] == e@[p + 1 + q2]);
            }
        }
        return false;
    }
    let qq = q - (p + 1);
    assert(first_at(after, ';', qq as int)) by {
        assert forall|j: int| 0 <= j < qq implies after[j] != ';' by {
            assert(after[j] == e@[p + 1 + j]);
        }
    }
    assert forall|q2: int| first_at(after, ';', q2) implies q2 == qq by {
        if q2 < qq {
            assert(after[q2] == e@[p + 1 + q2]);
        } else if q2 > qq {
            assert(after[qq as int] == ';');
        }
    }
    let ghost code = e@.subrange(p + 1, q as int);
    assert(code =~= after.subrange(0, qq as int));
    if qq == 0 {
        return false;
    }
    let mut v: u32 = 0;
    let mut big = false;
    let mut j: usize = p + 1;
    while j < q
        invariant
            n == e@.len(),
            p < j <= q < n,
            code == e@.subrange(p + 1, q as int),
            e@ == entity@,
            qq == q - (p + 1),
            after == e@.subrange(p + 1, n as int),
            forall|p2: int| first_at(e@, '+', p2) ==> p2 == p,
            forall|q2: int| first_at(after, ';', q2) ==> q2 == qq,
            forall|k: int| 0 <= k < j - (p + 1) ==> is_hex_digit(#[trigger] code[k]),
            big ==> hex_value(code.subrange(0, j - (p + 1))) > 0x2FFF,
            !big ==> v as int == hex_value(code.subrange(0, j - (p + 1))) && v <= 0x2FFF,
        decreases q - j,
    {
        let c = e.get_char(j);
        let ghost k = j - (p + 1);
        assert(code[k] == c);
        if !(('0' <= c && c <= '9') || ('a' <= c && c <= 'f') || ('A' <= c && c <= 'F')) {
            assert forall|p2: int, q2: int| !#[trigger] operator_code_at(e@, p2, q2) by {
                if operator_code_at(e@, p2, q2) {
                    assert(p2 == p && q2 == qq);
                    let c2 = e@.subrange(p2 + 1, p2 + 1 + q2);
                    assert(c2 =~= code);
                    assert(is_hex_digit(c2[k]));
                }
            }
            return false;
        }
        let d: u32 = if '0' <= c && c <= '9' {
            (c as u32) - ('0' as u32)
        } else if 'a' <= c && c <= 'f' {
            (c as u32) - ('a' as u32) + 10
        } else {
            (c as u32) - ('A' as u32) + 10
        };
        assert(code.subrange(0, k + 1).drop_last() =~= code.subrange(0, k));
        assert(d as int == hex_digit_value(c));
        if !big {
            v = 16 * v + d;
            if v > 0x2FFF {
                big = true;
            }
        }
        j = j + 1;
    }
    assert(code.subrange(0, qq as int) =~= code);
    let r = !big && 0x2FF0 <= v;
    if r {
        assert(operator_code_at(e@, p as int, qq as int));
    } else {
        assert forall|p2: int, q2: int| !#[trigger] operator_code_at(e@, p2, q2) by {
            if operator_code_at(e@, p2, q2) {
                assert(p2 == p);
                assert(q2 == qq);
            }
        }
    }
    r
}

/// The ordered direct components of a decomposition string: structural
/// operators are dropped, an entity reference from `&` to `;` is one
/// component, and one that encodes an operator is dropped.
pub fn extract_components_from_ids(ids: &str) -> (r: Vec<String>)
    ensures
        views(r@) == components(ids@),
        forall|k: int| 0 <= k < r@.len() ==> !is_extended_indicator(#[trigger] views(r@)[k]),
{
    let n = ids.unicode_len();
    let mut comps: Vec<String> = Vec::new();
    let mut begin: usize = 0;
    let mut inside = false;
    let mut i: usize = 0;
    while i < n
        invariant
            n == ids@.len(),
            i <= n,
            inside ==> begin < i,
            run(start(), ids@.subrange(0, i as int)) == (
                views(comps@),
                if inside { ids@.subrange(begin as int, i as int) } else { Seq::<char>::empty() },
                inside,
            ),
            inside ==> forall|j: int| begin <= j < i ==> ids@[j] != ';',
            forall|k: int| 0 <= k < comps@.len() ==> !is_extended_indicator(#[trigger] views(comps@)[k]),
        decreases n - i,
    {
        let c = ids.get_char(i);
        let ghost pre = ids@.subrange(0, i as int);
        let ghost old_comps = comps@;
        assert(ids@.subrange(0, i as int + 1).drop_last() =~= pre);
        if c == '&' {
            if !inside {
                begin = i;
            }
            inside = true;
            assert(ids@.subrange(begin as int, i as int + 1) =~= ids@.subrange(begin as int, i as int).push(c));
        } else if c == ';' && inside {
            let tok = String::from_str(ids.substring_char(begin, i + 1));
            assert(tok@ =~= ids@.subrange(begin as int, i as int).push(c));
            if !is_extended_idc(tok.as_str()) {
                comps.push(tok);
                assert(views(comps@) =~= views(old_comps).push(tok@));
            }
            inside = false;
        } else if inside {
            assert(ids@.subrange(begin as int, i as int + 1) =~= ids@.subrange(begin as int, i as int).push(c));
        } else if !(0x2FF0 <= (c as u32) && (c as u32) <= 0x2FFF) {
            let one = String::from_str(ids.substring_char(i, i + 1));
            assert(one@ =~= seq![c]);
            comps.push(one);
            assert(views(comps@) =~= views(old_comps).push(one@));
        }
        i = i + 1;
    }
    assert(ids@.subrange(0, n as int) =~= ids@);
    if inside {
        let tok = String::from_str(ids.substring_char(begin, n));
        let ghost old_comps = comps@;
        assert(!is_extended_indicator(tok@)) by {
            if is_extended_indicator(tok@) {
                let (p, q) = choose|p: int, q: int| #[trigger] operator_code_at(tok@, p, q);
                let after = tok@.subrange(p + 1, tok@.len() as int);
                assert(after[q] == tok@[p + 1 + q]);
                assert(tok@[p + 1 + q] == ids@[begin + p + 1 + q]);
            }
        }
        comps.push(tok);
        assert(views(comps@) =~= views(old_comps).push(tok@));
    }
    comps
}

/// The one-character components of `s` in order, operators left out.
pub open spec fn plain_components(s: Seq<char>) -> Seq<Seq<char>>
    decreases s.len(),
{
    if s.len() == 0 {
        Seq::empty()
    } else if is_operator(s.last()) {
        plain_components(s.drop_last())
    } else {
        plain_components(s.drop_last()).push(seq![s.last()])
    }
}

proof fn lemma_run_append(st: Scan, a: Seq<char>, b: Seq<char>)
    ensures
        run(st, a + b) == run(run(st, a), b),
    decreases b.len(),
{
    if b.len() == 0 {
        assert(a + b =~= a);
    } else {
        assert((a + b).drop_last() =~= a + b.drop_last());
        lemma_run_append(st, a, b.drop_last());
    }
}

proof fn lemma_run_plain(c: Seq<Seq<char>>, s: Seq<char>)
    requires
        forall|j: int| 0 <= j < s.len() ==> s[j] != '&',
    ensures
        run((c, Seq::empty(), false), s) == (c + plain_components(s), Seq::<char>::empty(), false),
    decreases s.len(),
{
    if s.len() == 0 {
        assert(c + plain_components(s) =~= c);
    } else {
        lemma_run_plain(c, s.drop_last());
        assert(c + plain_components(s.drop_last()).push(seq![s.last()])
            =~= (c + plain_components(s.drop_last())).push(seq![s.last()]));
    }
}

proof fn lemma_run_token(c: Seq<Seq<char>>, e: Seq<char>, k: int)
    requires
        e.len() >= 2,
        e[0] == '&',
        forall|j: int| 1 <= j < e.len() - 1 ==> e[j] != ';',
        1 <= k <= e.len() - 1,
    ensures
        run((c, Seq::empty(), false), e.subrange(0, k)) == (c, e.subrange(0, k), true),
    decreases k,
{
    let st0: Scan = (c, Seq::empty(), false);
    assert(e.subrange(0, k).drop_last() =~= e.subrange(0, k - 1));
    if k == 1 {
        assert(run(st0, e.subrange(0, 0)) == st0);
        assert(Seq::<char>::empty().push('&') =~= e.subrange(0, 1));
    } else {
        lemma_run_token(c, e, k - 1);
        assert(e.subrange(0, k - 1).push(e[k - 1]) =~= e.subrange(0, k));
    }
}

/// A decomposition string with no entity reference gives one component for
/// each character that is not a structural operator, in the same order.
pub proof fn lemma_plain_components(s: Seq<char>)
    requires
        forall|j: int| 0 <= j < s.len() ==> s[j] != '&',
    ensures
        components(s) == plain_components(s),
{
    lemma_run_plain(Seq::empty(), s);
    assert(Seq::<Seq<char>>::empty() + plain_components(s) =~= plain_components(s));
}

/// An entity reference `e` that does not encode an operator comes out as
/// one component, delimiters included, between the components of the
/// plain text around it.
pub proof fn lemma_entity_reference_whole(a: Seq<char>, e: Seq<char>, b: Seq<char>)
    requires
        forall|j: int| 0 <= j < a.len() ==> a[j] != '&',
        forall|j: int| 0 <= j < b.len() ==> b[j] != '&',
        e.len() >= 2,
        e[0] == '&',
        e.last() == ';',
        forall|j: int| 1 <= j < e.len() - 1 ==> e[j] != ';',
        !is_extended_indicator(e),
    ensures
        components(a + e + b) == plain_components(a) + seq![e] + plain_components(b),
{
    lemma_run_append(start(), a + e, b);
    lemma_run_append(start(), a, e);
    lemma_run_plain(Seq::empty(), a);
    let c = Seq::<Seq<char>>::empty() + plain_components(a);
    assert(c =~= plain_components(a));
    lemma_run_token(c, e, e.len() - 1);
    assert(e.drop_last() =~= e.subrange(0, e.len() - 1));
    assert(e.subrange(0, e.len() - 1).push(';') =~= e);
    lemma_run_plain(c.push(e), b);
    assert(c.push(e) + plain_components(b) =~= plain_components(a) + seq![e] + plain_components(b));
}

} // verus!
