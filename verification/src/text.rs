use vstd::prelude::*;

verus! {

/// The whitespace characters this library recognizes when stripping and
/// trimming text: space, tab, line feed, vertical tab, form feed, carriage
/// return.
pub open spec fn is_space_char(c: char) -> bool {
    c == ' ' || c == '\t' || c == '\n' || c == '\u{000B}' || c == '\u{000C}' || c == '\r'
}

/// A string with every whitespace character removed; the relative order of
/// the remaining characters is unchanged.
pub open spec fn strip_spaces(s: Seq<char>) -> Seq<char> {
    s.filter(|c: char| !is_space_char(c))
}

/// A string without its leading whitespace.
pub open spec fn trim_start_spec(s: Seq<char>) -> Seq<char>
    decreases s.len(),
{
    if s.len() > 0 && is_space_char(s[0]) {
        trim_start_spec(s.drop_first())
    } else {
        s
    }
}

/// A string without its trailing whitespace.
pub open spec fn trim_end_spec(s: Seq<char>) -> Seq<char>
    decreases s.len(),
{
    if s.len() > 0 && is_space_char(s.last()) {
        trim_end_spec(s.drop_last())
    } else {
        s
    }
}

/// A string without its leading and trailing whitespace.
pub open spec fn trim_spec(s: Seq<char>) -> Seq<char> {
    trim_end_spec(trim_start_spec(s))
}

/// Text fragments joined with a single space between consecutive fragments.
pub open spec fn join_space(ts: Seq<Seq<char>>) -> Seq<char>
    decreases ts.len(),
{
    if ts.len() == 0 {
        Seq::empty()
    } else if ts.len() == 1 {
        ts[0]
    } else {
        ts[0] + seq![' '] + join_space(ts.drop_first())
    }
}

/// The raw joined text of an element: its text fragments joined with single
/// spaces, then trimmed of outer whitespace.
pub open spec fn joined_text(ts: Seq<Seq<char>>) -> Seq<char> {
    trim_spec(join_space(ts))
}

pub fn is_space(c: char) -> (r: bool)
    ensures
        r == is_space_char(c),
{
    c == ' ' || c == '\t' || c == '\n' || c == '\u{000B}' || c == '\u{000C}' || c == '\r'
}

/// Relies on `str`'s `chars` iterator collected into a `String`: the collected
/// string holds exactly the characters of the vector, in order.
#[verifier::external_body]
pub fn chars_to_string(v: &Vec<char>) -> (s: String)
    ensures
        s@ == v@,
{
    v.iter().collect()
}

pub fn str_chars(s: &str) -> (v: Vec<char>)
    ensures
        v@ == s@,
{
    let n = s.unicode_len();
    let mut v: Vec<char> = Vec::new();
    let mut i: usize = 0;
    while i < n
        invariant
            i <= n,
            n == s@.len(),
            v@ == s@.take(i as int),
        decreases n - i,
    {
        let c = s.get_char(i);
        v.push(c);
        proof {
            assert(s@.take(i + 1) =~= s@.take(i as int).push(s@[i as int]));
        }
        i = i + 1;
    }
    proof {
        assert(s@.take(n as int) =~= s@);
    }
    v
}

pub fn strip_spaces_chars(cs: &Vec<char>) -> (r: Vec<char>)
    ensures
        r@ == strip_spaces(cs@),
{
    let mut out: Vec<char> = Vec::new();
    let mut i: usize = 0;
    while i < cs.len()
        invariant
            i <= cs@.len(),
            out@ == cs@.take(i as int).filter(|c: char| !is_space_char(c)),
        decreases cs@.len() - i,
    {
        let c = cs[i];
        if !is_space(c) {
            out.push(c);
        }
        proof {
            reveal(Seq::filter);
            assert(cs@.take(i + 1).drop_last() =~= cs@.take(i as int));
            assert(cs@.take(i + 1).last() == cs@[i as int]);
        }
        i = i + 1;
    }
    proof {
        assert(cs@.take(cs@.len() as int) =~= cs@);
    }
    out
}

/// The stripping law: no whitespace character survives stripping, and what
/// survives is exactly the non-whitespace characters in their original
/// relative order (the filter of the string).
pub proof fn lemma_strip_spaces_no_whitespace(s: Seq<char>)
    ensures
        forall|i: int|
            0 <= i < strip_spaces(s).len() ==> !is_space_char(#[trigger] strip_spaces(s)[i]),
        strip_spaces(s) == s.filter(|c: char| !is_space_char(c)),
{
    assert forall|i: int|
        0 <= i < strip_spaces(s).len() implies !is_space_char(#[trigger] strip_spaces(s)[i]) by {
        s.lemma_filter_pred(|c: char| !is_space_char(c), i);
    }
}

/// Removes every whitespace character from a string, keeping all other
/// characters in their relative order.
pub fn clean_text(s: &str) -> (r: String)
    ensures
        r@ == strip_spaces(s@),
{
    let cs = str_chars(s);
    let out = strip_spaces_chars(&cs);
    chars_to_string(&out)
}

/// Copies the characters of `v` in `[from, to)`.
pub fn subvec(v: &Vec<char>, from: usize, to: usize) -> (r: Vec<char>)
    requires
        from <= to <= v@.len(),
    ensures
        r@ == v@.subrange(from as int, to as int),
{
    let mut out: Vec<char> = Vec::new();
    let mut i: usize = from;
    while i < to
        invariant
            from <= i <= to <= v@.len(),
            out@ == v@.subrange(from as int, i as int),
        decreases to - i,
    {
        out.push(v[i]);
        proof {
            assert(v@.subrange(from as int, i + 1) =~= v@.subrange(from as int, i as int).push(
                v@[i as int],
            ));
        }
        i = i + 1;
    }
    out
}

proof fn lemma_trim_start_skip(s: Seq<char>, k: int)
    requires
        0 <= k <= s.len(),
        forall|j: int| 0 <= j < k ==> is_space_char(s[j]),
        k < s.len() ==> !is_space_char(s[k]),
    ensures
        trim_start_spec(s) == s.skip(k),
    decreases k,
{
    if k == 0 {
        assert(s.skip(0) =~= s);
    } else {
        lemma_trim_start_skip(s.drop_first(), k - 1);
        assert(s.drop_first().skip(k - 1) =~= s.skip(k));
    }
}

proof fn lemma_trim_end_take(s: Seq<char>, k: int)
    requires
        0 <= k <= s.len(),
        forall|j: int| k <= j < s.len() ==> is_space_char(s[j]),
        k > 0 ==> !is_space_char(s[k - 1]),
    ensures
        trim_end_spec(s) == s.take(k),
    decreases s.len() - k,
{
    if k == s.len() {
        assert(s.take(k) =~= s);
    } else {
        lemma_trim_end_take(s.drop_last(), k);
        assert(s.drop_last().take(k) =~= s.take(k));
    }
}

pub fn trim_chars(v: &Vec<char>) -> (r: Vec<char>)
    ensures
        r@ == trim_spec(v@),
{
    let n = v.len();
    let mut start: usize = 0;
    while start < n && is_space(v[start])
        invariant
            start <= n,
            n == v@.len(),
            forall|j: int| 0 <= j < start ==> is_space_char(v@[j]),
        decreases n - start,
    {
        start = start + 1;
    }
    proof {
        lemma_trim_start_skip(v@, start as int);
    }
    let ghost mid: Seq<char> = v@.skip(start as int);
    let mut end: usize = n;
    while end > start && is_space(v[end - 1])
        invariant
            start <= end <= n,
            n == v@.len(),
            mid == v@.skip(start as int),
            forall|j: int| end <= j < n ==> is_space_char(v@[j]),
        decreases end,
    {
        end = end - 1;
    }
    proof {
        assert(forall|j: int| end - start <= j < mid.len() ==> is_space_char(mid[j]));
        lemma_trim_end_take(mid, end - start);
    }
    let mut out: Vec<char> = Vec::new();
    let mut i: usize = start;
    while i < end
        invariant
            start <= i <= end <= n,
            n == v@.len(),
            out@ == v@.subrange(start as int, i as int),
        decreases end - i,
    {
        out.push(v[i]);
        proof {
            assert(v@.subrange(start as int, i + 1) =~= v@.subrange(start as int, i as int).push(
                v@[i as int],
            ));
        }
        i = i + 1;
    }
    proof {
        assert(mid.take(end - start as int) =~= v@.subrange(start as int, end as int));
    }
    out
}

proof fn lemma_join_space_push(ts: Seq<Seq<char>>, t: Seq<char>)
    ensures
        ts.len() == 0 ==> join_space(ts.push(t)) == t,
        ts.len() > 0 ==> join_space(ts.push(t)) == join_space(ts) + seq![' '] + t,
    decreases ts.len(),
{
    if ts.len() == 0 {
        assert(join_space(ts.push(t)) == ts.push(t)[0]);
        assert(ts.push(t)[0] == t);
    } else if ts.len() == 1 {
        assert(ts.push(t).len() == 2);
        assert(ts.push(t)[0] == ts[0]);
        assert(ts.push(t).drop_first() =~= seq![t]);
        assert(seq![t].len() == 1);
        assert(seq![t][0] == t);
        assert(join_space(seq![t]) == t);
        assert(join_space(ts.push(t)) == ts.push(t)[0] + seq![' '] + join_space(
            ts.push(t).drop_first(),
        ));
        assert(join_space(ts) == ts[0]);
    } else {
        lemma_join_space_push(ts.drop_first(), t);
        assert(ts.push(t).drop_first() =~= ts.drop_first().push(t));
        assert(join_space(ts.push(t)) == ts[0] + seq![' '] + join_space(ts.drop_first().push(t)));
        assert(ts[0] + seq![' '] + (join_space(ts.drop_first()) + seq![' '] + t) =~= (ts[0]
            + seq![' '] + join_space(ts.drop_first())) + seq![' '] + t);
    }
}

/// The raw joined text of an element's text fragments: the fragments joined
/// with a single separating space, trimmed of outer whitespace.
pub fn text_of(texts: &Vec<String>) -> (r: Vec<char>)
    ensures
        r@ == joined_text(texts.deep_view()),
{
    let mut acc: Vec<char> = Vec::new();
    let mut i: usize = 0;
    while i < texts.len()
        invariant
            i <= texts@.len(),
            texts.deep_view().len() == texts@.len(),
            forall|j: int| 0 <= j < texts@.len() ==> texts.deep_view()[j] == texts@[j]@,
            acc@ == join_space(texts.deep_view().take(i as int)),
        decreases texts@.len() - i,
    {
        if i > 0 {
            acc.push(' ');
        }
        let cs = str_chars(texts[i].as_str());
        let mut j: usize = 0;
        let ghost base: Seq<char> = acc@;
        while j < cs.len()
            invariant
                j <= cs@.len(),
                acc@ == base + cs@.take(j as int),
            decreases cs@.len() - j,
        {
            acc.push(cs[j]);
            proof {
                assert(cs@.take(j + 1) =~= cs@.take(j as int).push(cs@[j as int]));
                assert(base + cs@.take(j + 1) =~= (base + cs@.take(j as int)).push(cs@[j as int]));
            }
            j = j + 1;
        }
        proof {
            assert(cs@.take(cs@.len() as int) =~= cs@);
            lemma_join_space_push(texts.deep_view().take(i as int), texts.deep_view()[i as int]);
            assert(texts.deep_view().take(i + 1) =~= texts.deep_view().take(i as int).push(
                texts.deep_view()[i as int],
            ));
            if i == 0 {
                assert(acc@ =~= join_space(texts.deep_view().take(i + 1)));
            } else {
                assert(acc@ =~= join_space(texts.deep_view().take(i as int)) + seq![' ']
                    + texts.deep_view()[i as int]);
            }
        }
        i = i + 1;
    }
    proof {
        assert(texts.deep_view().take(texts@.len() as int) =~= texts.deep_view());
    }
    trim_chars(&acc)
}

} // verus!
