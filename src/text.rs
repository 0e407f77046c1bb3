//! Character-level helpers on module paths.
use vstd::prelude::*;
use vstd::std_specs::iter::IteratorSpec;

verus! {

broadcast use vstd::string::group_string_axioms;

/// `p` lies strictly below `a` in the dotted hierarchy: it begins with `a`
/// followed by a dot.
pub open spec fn is_dotted_descendant(p: Seq<char>, a: Seq<char>) -> bool {
    &&& p.len() > a.len()
    &&& p.subrange(0, a.len() as int) == a
    &&& p[a.len() as int] == '.'
}

/// The characters of a string, in order.
pub fn to_chars(s: &str) -> (r: Vec<char>)
    ensures
        r@ == s@,
{
    let mut it = s.chars();
    let mut r: Vec<char> = Vec::new();
    loop
        invariant
            it.obeys_prophetic_iter_laws(),
            it.remaining() == s@.skip(r@.len() as int),
            r@ == s@.take(r@.len() as int),
            r@.len() <= s@.len(),
        ensures
            r@ == s@,
        decreases s@.len() - r@.len(),
    {
        match it.next() {
            Some(c) => {
                r.push(c);
                assert(r@ =~= s@.take(r@.len() as int));
            },
            None => {
                assert(s@.skip(r@.len() as int).len() == 0);
                assert(r@ =~= s@);
                break ;
            },
        }
    }
    r
}

} // verus!

verus! {

/// Strict lexicographic order on character sequences, by code point; this is
/// the order `String` comparison uses.
pub open spec fn lex_lt(a: Seq<char>, b: Seq<char>) -> bool
    decreases a.len(),
{
    if b.len() == 0 {
        false
    } else if a.len() == 0 {
        true
    } else if a[0] != b[0] {
        (a[0] as int) < (b[0] as int)
    } else {
        lex_lt(a.drop_first(), b.drop_first())
    }
}

pub proof fn lemma_lex_irreflexive(a: Seq<char>)
    ensures
        !lex_lt(a, a),
    decreases a.len(),
{
    if a.len() > 0 {
        lemma_lex_irreflexive(a.drop_first());
    }
}

pub proof fn lemma_lex_asymmetric(a: Seq<char>, b: Seq<char>)
    ensures
        !(lex_lt(a, b) && lex_lt(b, a)),
    decreases a.len(),
{
    if a.len() > 0 && b.len() > 0 && a[0] == b[0] {
        lemma_lex_asymmetric(a.drop_first(), b.drop_first());
    }
}

pub proof fn lemma_lex_total(a: Seq<char>, b: Seq<char>)
    ensures
        a != b ==> lex_lt(a, b) || lex_lt(b, a),
    decreases a.len(),
{
    if a.len() > 0 && b.len() > 0 && a[0] == b[0] {
        lemma_lex_total(a.drop_first(), b.drop_first());
        if a.drop_first() == b.drop_first() {
            assert(a =~= seq![a[0]] + a.drop_first());
            assert(b =~= seq![b[0]] + b.drop_first());
        }
    } else if a.len() == 0 && b.len() == 0 {
        assert(a =~= b);
    } else if a.len() > 0 && b.len() > 0 {
        assert((a[0] as int) != (b[0] as int));
    }
}

pub proof fn lemma_lex_transitive(a: Seq<char>, b: Seq<char>, c: Seq<char>)
    requires
        lex_lt(a, b),
        lex_lt(b, c),
    ensures
        lex_lt(a, c),
    decreases a.len(),
{
    if a.len() > 0 && a[0] == b[0] && b[0] == c[0] {
        lemma_lex_transitive(a.drop_first(), b.drop_first(), c.drop_first());
    }
}

/// Whether `a` orders strictly before `b`.
pub fn str_lt(a: &str, b: &str) -> (r: bool)
    ensures
        r == lex_lt(a@, b@),
{
    let x = to_chars(a);
    let y = to_chars(b);
    let mut i: usize = 0;
    assert(a@.skip(0) =~= a@);
    assert(b@.skip(0) =~= b@);
    while i < x.len() && i < y.len()
        invariant
            x@ == a@,
            y@ == b@,
            i <= x@.len(),
            i <= y@.len(),
            lex_lt(a@, b@) == lex_lt(a@.skip(i as int), b@.skip(i as int)),
        decreases x@.len() - i,
    {
        if x[i] != y[i] {
            return x[i] < y[i];
        }
        assert(a@.skip(i as int).drop_first() =~= a@.skip(i + 1));
        assert(b@.skip(i as int).drop_first() =~= b@.skip(i + 1));
        i = i + 1;
    }
    x.len() < y.len()
}

/// Exec form of `is_dotted_descendant(p@, a@)`.
pub fn is_descendant_path(p: &str, a: &str) -> (r: bool)
    ensures
        r == is_dotted_descendant(p@, a@),
{
    let x = to_chars(p);
    let y = to_chars(a);
    if x.len() <= y.len() {
        return false;
    }
    let mut i: usize = 0;
    while i < y.len()
        invariant
            x@ == p@,
            y@ == a@,
            y@.len() < x@.len(),
            i <= y@.len(),
            forall|j: int| 0 <= j < i ==> x@[j] == y@[j],
        decreases y@.len() - i,
    {
        if x[i] != y[i] {
            assert(p@.subrange(0, a@.len() as int)[i as int] != a@[i as int]);
            return false;
        }
        i = i + 1;
    }
    assert(p@.subrange(0, a@.len() as int) =~= a@);
    x[y.len()] == '.'
}

/// The test-package marker: the path has a `.tests.` segment inside it or
/// ends in `.tests`.
pub open spec fn tests_marker() -> Seq<char> {
    seq!['.', 't', 'e', 's', 't', 's']
}

pub open spec fn is_test_path(p: Seq<char>) -> bool {
    ||| exists|i: int|
        0 <= i && i + 7 <= p.len() && #[trigger] p.subrange(i, i + 7) == tests_marker().push('.')
    ||| (p.len() >= 6 && p.subrange(p.len() - 6, p.len() as int) == tests_marker())
}

/// Whether `x[at..]` starts with `.tests`.
fn marker_at(x: &Vec<char>, at: usize) -> (r: bool)
    requires
        at + 6 <= x@.len(),
    ensures
        r == (x@.subrange(at as int, at + 6) == tests_marker()),
{
    let n = x.len();
    assert(at + 6 <= n);
    let r = x[at] == '.' && x[at + 1] == 't' && x[at + 2] == 'e' && x[at + 3] == 's' && x[at + 4]
        == 't' && x[at + 5] == 's';
    if r {
        assert(x@.subrange(at as int, at + 6) =~= tests_marker());
    } else {
        proof {
            if x@.subrange(at as int, at + 6) == tests_marker() {
                assert(x@.subrange(at as int, at + 6)[0] == '.');
                assert(x@.subrange(at as int, at + 6)[1] == 't');
                assert(x@.subrange(at as int, at + 6)[2] == 'e');
                assert(x@.subrange(at as int, at + 6)[3] == 's');
                assert(x@.subrange(at as int, at + 6)[4] == 't');
                assert(x@.subrange(at as int, at + 6)[5] == 's');
            }
        }
    }
    r
}

/// Whether a module path belongs to a test package.
pub fn is_test_module(p: &str) -> (r: bool)
    ensures
        r == is_test_path(p@),
{
    let x = to_chars(p);
    let n = x.len();
    if n < 6 {
        return false;
    }
    if marker_at(&x, n - 6) {
        return true;
    }
    let mut i: usize = 0;
    while i < n - 6
        invariant
            x@ == p@,
            n == x@.len(),
            n >= 6,
            x@.subrange(n - 6, n as int) != tests_marker(),
            forall|j: int|
                0 <= j < i && j + 7 <= n ==> #[trigger] p@.subrange(j, j + 7) != tests_marker().push(
                    '.',
                ),
        decreases n - i,
    {
        if marker_at(&x, i) && x[i + 6] == '.' {
            assert(p@.subrange(i as int, i + 7) =~= x@.subrange(i as int, i + 6).push('.'));
            return true;
        }
        assert(p@.subrange(i as int, i + 6) =~= p@.subrange(i as int, i + 7).subrange(0, 6));
        assert(tests_marker().push('.').subrange(0, 6) =~= tests_marker());
        assert(p@.subrange(i as int, i + 7)[6] == p@[i + 6]);
        i = i + 1;
    }
    proof {
        lemma_marker_absent(p@, n as int, i as int);
    }
    false
}

proof fn lemma_marker_absent(p: Seq<char>, n: int, i: int)
    requires
        n == p.len(),
        i + 7 > n,
        forall|j: int|
            0 <= j < i && j + 7 <= n ==> #[trigger] p.subrange(j, j + 7) != tests_marker().push('.'),
    ensures
        forall|j: int|
            0 <= j && j + 7 <= p.len() ==> #[trigger] p.subrange(j, j + 7) != tests_marker().push(
                '.',
            ),
{
}

} // verus!

verus! {

/// The decimal digit for `d < 10`.
pub open spec fn digit_char(d: nat) -> char {
    if d == 0 { '0' } else if d == 1 { '1' } else if d == 2 { '2' } else if d == 3 { '3' }
    else if d == 4 { '4' } else if d == 5 { '5' } else if d == 6 { '6' } else if d == 7 { '7' }
    else if d == 8 { '8' } else { '9' }
}

/// The decimal notation of `n`, without leading zeros.
pub open spec fn decimal(n: nat) -> Seq<char>
    decreases n,
{
    if n < 10 {
        seq![digit_char(n)]
    } else {
        decimal(n / 10).push(digit_char(n % 10))
    }
}

fn digit_str(d: usize) -> (r: &'static str)
    requires
        d < 10,
    ensures
        r@ == seq![digit_char(d as nat)],
{
    proof {
        reveal_strlit("0");
        reveal_strlit("1");
        reveal_strlit("2");
        reveal_strlit("3");
        reveal_strlit("4");
        reveal_strlit("5");
        reveal_strlit("6");
        reveal_strlit("7");
        reveal_strlit("8");
        reveal_strlit("9");
    }
    let r = if d == 0 { "0" } else if d == 1 { "1" } else if d == 2 { "2" } else if d == 3 { "3" }
    else if d == 4 { "4" } else if d == 5 { "5" } else if d == 6 { "6" } else if d == 7 { "7" }
    else if d == 8 { "8" } else { "9" };
    assert(r@ =~= seq![digit_char(d as nat)]);
    r
}

/// Appends the decimal notation of `n`.
pub fn push_decimal(out: &mut String, n: usize)
    ensures
        final(out)@ == old(out)@ + decimal(n as nat),
    decreases n,
{
    if n >= 10 {
        push_decimal(out, n / 10);
    }
    out.append(digit_str(n % 10));
    assert(decimal(n as nat) =~= if n < 10 { seq![digit_char(n as nat)] } else { decimal((n / 10) as nat).push(digit_char((n % 10) as nat)) });
}

} // verus!

verus! {

/// `n` copies of two spaces.
pub open spec fn indent_of(n: nat) -> Seq<char>
    decreases n,
{
    if n == 0 {
        Seq::empty()
    } else {
        indent_of((n - 1) as nat) + "  "@
    }
}

/// Appends `n` copies of two spaces.
pub fn push_indent(out: &mut String, n: usize)
    ensures
        final(out)@ == old(out)@ + indent_of(n as nat),
{
    let mut i: usize = 0;
    let ghost start = out@;
    while i < n
        invariant
            i <= n,
            out@ == start + indent_of(i as nat),
        decreases n - i,
    {
        out.append("  ");
        assert(start + indent_of((i + 1) as nat) =~= start + indent_of(i as nat) + "  "@);
        i = i + 1;
    }
    assert(start + indent_of(0) =~= start);
}

/// The segments of a dotted path.
pub open spec fn segments_of(p: Seq<char>) -> Seq<Seq<char>>
    decreases p.len(),
{
    if p.len() == 0 {
        seq![Seq::empty()]
    } else {
        let prev = segments_of(p.drop_last());
        if p.last() == '.' {
            prev.push(Seq::empty())
        } else {
            prev.update(prev.len() - 1, prev.last().push(p.last()))
        }
    }
}

proof fn lemma_segments_nonempty(p: Seq<char>)
    ensures
        segments_of(p).len() >= 1,
    decreases p.len(),
{
    if p.len() > 0 {
        lemma_segments_nonempty(p.drop_last());
    }
}

/// Splits a path at each `.`.
pub fn split_dots(p: &str) -> (r: Vec<String>)
    ensures
        r@.len() >= 1,
        r@.map_values(|s: String| s@) == segments_of(p@),
{
    let cs = to_chars(p);
    let mut r: Vec<String> = Vec::new();
    let mut start: usize = 0;
    let mut i: usize = 0;
    proof {
        lemma_segments_nonempty(p@.take(0));
        assert(p@.take(0) =~= Seq::<char>::empty());
        assert(p@.subrange(0, 0) =~= Seq::<char>::empty());
        assert(r@.map_values(|s: String| s@).push(p@.subrange(0, 0)) =~= seq![Seq::<char>::empty()]);
    }
    while i < cs.len()
        invariant
            cs@ == p@,
            start <= i <= cs@.len(),
            segments_of(p@.take(i as int)).len() >= 1,
            r@.map_values(|s: String| s@).push(p@.subrange(start as int, i as int)) == segments_of(
                p@.take(i as int),
            ),
        decreases cs@.len() - i,
    {
        let ghost prev = segments_of(p@.take(i as int));
        assert(p@.take(i + 1).drop_last() =~= p@.take(i as int));
        if cs[i] == '.' {
            let ghost old_r = r@;
            let seg = String::from_str(p.substring_char(start, i));
            assert(seg@ == p@.subrange(start as int, i as int));
            r.push(seg);
            assert(r@.map_values(|s: String| s@) =~= old_r.map_values(|s: String| s@).push(p@.subrange(start as int, i as int)));
            start = i + 1;
            assert(r@.map_values(|s: String| s@).push(p@.subrange(start as int, i + 1)) =~~= prev.push(Seq::empty()));
            assert(p@.take(i + 1).last() == '.');
        } else {
            assert(p@.subrange(start as int, i + 1) =~= p@.subrange(start as int, i as int).push(p@[i as int]));
            assert(r@.map_values(|s: String| s@).push(p@.subrange(start as int, i + 1)) =~~= prev.update(prev.len() - 1, prev.last().push(p@[i as int])));
            assert(p@.take(i + 1).last() == p@[i as int]);
        }
        proof {
            lemma_segments_nonempty(p@.take(i + 1));
        }
        i = i + 1;
    }
    assert(p@.take(i as int) =~= p@);
    let ghost old_r = r@;
    let seg = String::from_str(p.substring_char(start, i));
    assert(seg@ == p@.subrange(start as int, i as int));
    r.push(seg);
    assert(r@.map_values(|s: String| s@) =~= old_r.map_values(|s: String| s@).push(p@.subrange(start as int, i as int)));
    r
}

} // verus!

verus! {

/// Segments joined with `.`.
pub open spec fn join_dots(ps: Seq<Seq<char>>) -> Seq<char>
    decreases ps.len(),
{
    if ps.len() == 0 {
        Seq::empty()
    } else if ps.len() == 1 {
        ps[0]
    } else {
        join_dots(ps.drop_last()) + "."@ + ps.last()
    }
}

/// Joins strings with `.`.
pub fn join_with_dots(ps: &[String]) -> (r: String)
    ensures
        r@ == join_dots(ps@.map_values(|s: String| s@)),
{
    let ghost pv = ps@.map_values(|s: String| s@);
    let mut out = String::new();
    let mut i: usize = 0;
    proof {
        reveal_strlit(".");
        assert(pv.take(0) =~= Seq::<Seq<char>>::empty());
    }
    while i < ps.len()
        invariant
            pv == ps@.map_values(|s: String| s@),
            i <= pv.len(),
            out@ == join_dots(pv.take(i as int)),
        decreases pv.len() - i,
    {
        assert(pv.take(i + 1).drop_last() =~= pv.take(i as int));
        assert(pv.take(i + 1).last() == ps@[i as int]@);
        if i > 0 {
            out.append(".");
        } else {
            assert(pv.take(i as int).len() == 0);
        }
        out.append(ps[i].as_str());
        i = i + 1;
    }
    assert(pv.take(i as int) =~= pv);
    out
}

} // verus!

verus! {

/// What `str::to_lowercase` returns for a string.
pub uninterp spec fn lower_of(s: Seq<char>) -> Seq<char>;

/// Relies on `str::to_lowercase`: the result depends on the characters alone.
#[verifier::external_body]
pub(crate) fn lowercase(s: &str) -> (r: String)
    ensures
        r@ == lower_of(s@),
{
    s.to_lowercase()
}

} // verus!
