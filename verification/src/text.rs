//! Shared text utilities: first occurrences, line splitting, whitespace
//! fields, and trimming, each with a specification the parsers build on.

use vstd::prelude::*;

verus! {

/// The index of the first occurrence of `x` in `s`, or the length of `s`
/// when `x` is absent.
pub open spec fn first_index_of<A>(s: Seq<A>, x: A) -> int
    decreases s.len(),
{
    if s.len() == 0 {
        0
    } else if s.first() == x {
        0
    } else {
        1 + first_index_of(s.drop_first(), x)
    }
}

/// When `s` contains `x`, `first_index_of` points at the first occurrence of
/// `x`: the element there is `x` and nothing before it is.
pub proof fn lemma_first_index_of<A>(s: Seq<A>, x: A)
    requires
        s.contains(x),
    ensures
        0 <= first_index_of(s, x) < s.len(),
        s[first_index_of(s, x)] == x,
        forall|k: int| 0 <= k < first_index_of(s, x) ==> s[k] != x,
    decreases s.len(),
{
    if s.first() == x {
    } else {
        let rest = s.drop_first();
        assert(rest.contains(x)) by {
            let i = choose|i: int| 0 <= i < s.len() && s[i] == x;
            assert(rest[i - 1] == x);
        }
        lemma_first_index_of(rest, x);
        assert forall|k: int| 0 <= k < first_index_of(s, x) implies s[k] != x by {
            if k > 0 {
                assert(rest[k - 1] != x);
            }
        }
    }
}

/// The lines of a text: the segments between newlines, without a final empty
/// segment when the text ends with a newline.
pub open spec fn spec_lines(s: Seq<char>) -> Seq<Seq<char>>
    decreases s.len(),
    via spec_lines_decreases
{
    if s.len() == 0 {
        Seq::empty()
    } else if s.contains('\n') {
        seq![s.take(first_index_of(s, '\n'))] + spec_lines(s.skip(first_index_of(s, '\n') + 1))
    } else {
        seq![s]
    }
}

#[via_fn]
proof fn spec_lines_decreases(s: Seq<char>) {
    if s.len() > 0 && s.contains('\n') {
        lemma_first_index_of(s, '\n');
    }
}

/// The field separators and trimmed characters of the tabular texts handled
/// here: blank, tab, and the carriage return left by CRLF line endings.
pub open spec fn is_space(c: char) -> bool {
    c == ' ' || c == '\t' || c == '\r'
}

/// Whether `c` separates fields.
pub fn is_space_char(c: char) -> (r: bool)
    ensures
        r == is_space(c),
{
    c == ' ' || c == '\t' || c == '\r'
}

/// The index of the first separator character, or the length when there is
/// none.
pub open spec fn first_space_index(s: Seq<char>) -> int
    decreases s.len(),
{
    if s.len() == 0 {
        0
    } else if is_space(s.first()) {
        0
    } else {
        1 + first_space_index(s.drop_first())
    }
}

/// `first_space_index` points at the first separator: it stays within the
/// sequence, nothing before it is a separator, and the character there is one
/// unless the sequence has none.
pub proof fn lemma_first_space_index(s: Seq<char>)
    ensures
        0 <= first_space_index(s) <= s.len(),
        forall|k: int| 0 <= k < first_space_index(s) ==> !is_space(#[trigger] s[k]),
        first_space_index(s) < s.len() ==> is_space(s[first_space_index(s)]),
    decreases s.len(),
{
    if s.len() > 0 && !is_space(s.first()) {
        let rest = s.drop_first();
        lemma_first_space_index(rest);
        assert forall|k: int| 0 <= k < first_space_index(s) implies !is_space(#[trigger] s[k]) by {
            if k > 0 {
                assert(rest[k - 1] == s[k]);
            }
        }
        if first_space_index(s) < s.len() {
            assert(rest[first_space_index(rest)] == s[first_space_index(s)]);
        }
    }
}

/// The whitespace-separated fields of a line: maximal runs of non-separator
/// characters, in order.
pub open spec fn spec_fields(s: Seq<char>) -> Seq<Seq<char>>
    decreases s.len(),
    via spec_fields_decreases
{
    if s.len() == 0 {
        Seq::empty()
    } else if is_space(s.first()) {
        spec_fields(s.drop_first())
    } else {
        seq![s.take(first_space_index(s))] + spec_fields(s.skip(first_space_index(s)))
    }
}

#[via_fn]
proof fn spec_fields_decreases(s: Seq<char>) {
    if s.len() > 0 && !is_space(s.first()) {
        lemma_first_space_index(s);
        assert(first_space_index(s) >= 1) by {
            lemma_first_space_index(s.drop_first());
        }
    }
}

/// Splits a text into its lines.
pub fn split_lines(s: &str) -> (r: Vec<String>)
    ensures
        r@.map_values(|t: String| t@) == spec_lines(s@),
{
    let n = s.unicode_len();
    let mut out: Vec<String> = Vec::new();
    proof {
        assert(out@.map_values(|t: String| t@) =~= Seq::<Seq<char>>::empty());
        assert(s@.skip(0) =~= s@);
        assert(Seq::<Seq<char>>::empty() + spec_lines(s@) =~= spec_lines(s@));
    }
    let mut pos: usize = 0;
    while pos < n
        invariant
            0 <= pos <= n,
            n == s@.len(),
            spec_lines(s@) == out@.map_values(|t: String| t@) + spec_lines(s@.skip(pos as int)),
        decreases n - pos,
    {
        let mut j: usize = pos;
        while j < n && s.get_char(j) != '\n'
            invariant
                pos <= j <= n,
                n == s@.len(),
                forall|k: int| pos <= k < j ==> s@[k] != '\n',
            decreases n - j,
        {
            j = j + 1;
        }
        let line = s.substring_char(pos, j).to_owned();
        let ghost rest = s@.skip(pos as int);
        let ghost prev_views = out@.map_values(|t: String| t@);
        proof {
            assert(rest.len() == n - pos);
            if j < n {
                assert(s@[j as int] == '\n');
                assert(rest[j - pos as int] == s@[j as int]);
                assert(rest.contains('\n'));
                lemma_first_index_of(rest, '\n');
                let fi = first_index_of(rest, '\n');
                if fi < j - pos as int {
                    assert(rest[fi] == s@[pos as int + fi]);
                    assert(false);
                }
                if fi > j - pos as int {
                    assert(rest[j - pos as int] != '\n');
                    assert(false);
                }
                assert(fi == j - pos as int);
                assert(rest.take(fi) =~= s@.subrange(pos as int, j as int));
                assert(rest.skip(fi + 1) =~= s@.skip(j as int + 1));
                assert(spec_lines(rest) == seq![line@] + spec_lines(s@.skip(j as int + 1)));
            } else {
                assert(!rest.contains('\n')) by {
                    if rest.contains('\n') {
                        let m = choose|m: int| 0 <= m < rest.len() && rest[m] == '\n';
                        assert(rest[m] == s@[pos as int + m]);
                    }
                }
                assert(rest =~= s@.subrange(pos as int, n as int));
                assert(spec_lines(rest) == seq![line@]);
                assert(s@.skip(n as int) =~= Seq::<char>::empty());
                assert(spec_lines(s@.skip(n as int)) =~= Seq::<Seq<char>>::empty());
            }
        }
        out.push(line);
        proof {
            assert(out@.map_values(|t: String| t@) =~= prev_views.push(
                s@.subrange(pos as int, j as int),
            ));
            assert(prev_views + (seq![s@.subrange(pos as int, j as int)] + spec_lines(
                s@.skip(j as int + 1),
            )) =~= prev_views.push(s@.subrange(pos as int, j as int)) + spec_lines(
                s@.skip(j as int + 1),
            ));
            if j >= n {
                assert(prev_views + (seq![s@.subrange(pos as int, n as int)]
                    + Seq::<Seq<char>>::empty()) =~= prev_views.push(
                    s@.subrange(pos as int, n as int),
                ));
            }
        }
        if j < n {
            pos = j + 1;
        } else {
            pos = n;
            proof {
                assert(out@.map_values(|t: String| t@) + spec_lines(s@.skip(n as int))
                    =~= out@.map_values(|t: String| t@));
            }
        }
    }
    proof {
        assert(s@.skip(n as int) =~= Seq::<char>::empty());
        assert(out@.map_values(|t: String| t@) + spec_lines(s@.skip(n as int)) =~= out@.map_values(
            |t: String| t@,
        ));
    }
    out
}

/// Splits a line into its whitespace-separated fields.
pub fn split_fields(s: &str) -> (r: Vec<String>)
    ensures
        r@.map_values(|t: String| t@) == spec_fields(s@),
{
    let n = s.unicode_len();
    let mut out: Vec<String> = Vec::new();
    proof {
        assert(out@.map_values(|t: String| t@) =~= Seq::<Seq<char>>::empty());
        assert(s@.skip(0) =~= s@);
        assert(Seq::<Seq<char>>::empty() + spec_fields(s@) =~= spec_fields(s@));
    }
    let mut pos: usize = 0;
    while pos < n
        invariant
            0 <= pos <= n,
            n == s@.len(),
            spec_fields(s@) == out@.map_values(|t: String| t@) + spec_fields(s@.skip(pos as int)),
        decreases n - pos,
    {
        let ghost rest = s@.skip(pos as int);
        let c = s.get_char(pos);
        if is_space_char(c) {
            proof {
                assert(rest.first() == s@[pos as int]);
                assert(rest.drop_first() =~= s@.skip(pos as int + 1));
                assert(spec_fields(rest) == spec_fields(s@.skip(pos as int + 1)));
            }
            pos = pos + 1;
        } else {
            let mut j: usize = pos;
            while j < n && !is_space_char(s.get_char(j))
                invariant
                    pos <= j <= n,
                    n == s@.len(),
                    forall|k: int| pos <= k < j ==> !is_space(#[trigger] s@[k]),
                decreases n - j,
            {
                j = j + 1;
            }
            let field = s.substring_char(pos, j).to_owned();
            let ghost prev_views = out@.map_values(|t: String| t@);
            proof {
                assert(rest.first() == s@[pos as int]);
                lemma_first_space_index(rest);
                let fi = first_space_index(rest);
                if fi < j - pos as int {
                    assert(rest[fi] == s@[pos as int + fi]);
                    assert(!is_space(s@[pos as int + fi]));
                    assert(false);
                }
                if fi > j - pos as int {
                    assert(j < n);
                    assert(is_space(s@[j as int]));
                    assert(rest[j - pos as int] == s@[j as int]);
                    assert(false);
                }
                assert(fi == j - pos as int);
                assert(rest.take(fi) =~= s@.subrange(pos as int, j as int));
                assert(rest.skip(fi) =~= s@.skip(j as int));
                assert(spec_fields(rest) == seq![field@] + spec_fields(s@.skip(j as int)));
            }
            out.push(field);
            proof {
                assert(out@.map_values(|t: String| t@) =~= prev_views.push(
                    s@.subrange(pos as int, j as int),
                ));
                assert(prev_views + (seq![s@.subrange(pos as int, j as int)] + spec_fields(
                    s@.skip(j as int),
                )) =~= prev_views.push(s@.subrange(pos as int, j as int)) + spec_fields(
                    s@.skip(j as int),
                ));
            }
            pos = j;
        }
    }
    proof {
        assert(s@.skip(n as int) =~= Seq::<char>::empty());
        assert(out@.map_values(|t: String| t@) + spec_fields(s@.skip(n as int))
            =~= out@.map_values(|t: String| t@));
    }
    out
}

/// The count of leading separator characters.
pub open spec fn leading_spaces(s: Seq<char>) -> int
    decreases s.len(),
{
    if s.len() == 0 {
        0
    } else if is_space(s.first()) {
        1 + leading_spaces(s.drop_first())
    } else {
        0
    }
}

/// The count of trailing separator characters.
pub open spec fn trailing_spaces(s: Seq<char>) -> int
    decreases s.len(),
{
    if s.len() == 0 {
        0
    } else if is_space(s.last()) {
        1 + trailing_spaces(s.drop_last())
    } else {
        0
    }
}

/// `s` without its leading and trailing separator characters.
pub open spec fn spec_trim(s: Seq<char>) -> Seq<char> {
    let t = s.skip(leading_spaces(s));
    t.take(t.len() - trailing_spaces(t))
}

/// The leading separators are an initial run: they stay within the sequence,
/// everything before the count is a separator, and the character at the count
/// is none when one exists.
pub proof fn lemma_leading_spaces(s: Seq<char>)
    ensures
        0 <= leading_spaces(s) <= s.len(),
        forall|k: int| 0 <= k < leading_spaces(s) ==> is_space(#[trigger] s[k]),
        leading_spaces(s) < s.len() ==> !is_space(s[leading_spaces(s)]),
    decreases s.len(),
{
    if s.len() > 0 && is_space(s.first()) {
        let rest = s.drop_first();
        lemma_leading_spaces(rest);
        assert forall|k: int| 0 <= k < leading_spaces(s) implies is_space(#[trigger] s[k]) by {
            if k > 0 {
                assert(rest[k - 1] == s[k]);
            }
        }
        if leading_spaces(s) < s.len() {
            assert(rest[leading_spaces(rest)] == s[leading_spaces(s)]);
        }
    }
}

/// The trailing separators are a final run, in the same way.
pub proof fn lemma_trailing_spaces(s: Seq<char>)
    ensures
        0 <= trailing_spaces(s) <= s.len(),
        forall|k: int| s.len() - trailing_spaces(s) <= k < s.len() ==> is_space(#[trigger] s[k]),
        trailing_spaces(s) < s.len() ==> !is_space(s[s.len() - trailing_spaces(s) - 1]),
    decreases s.len(),
{
    if s.len() > 0 && is_space(s.last()) {
        let rest = s.drop_last();
        lemma_trailing_spaces(rest);
        assert forall|k: int| s.len() - trailing_spaces(s) <= k < s.len() implies is_space(
            #[trigger] s[k],
        ) by {
            if k < s.len() - 1 {
                assert(rest[k] == s[k]);
            }
        }
        if trailing_spaces(s) < s.len() {
            assert(rest[rest.len() - trailing_spaces(rest) - 1] == s[s.len() - trailing_spaces(s)
                - 1]);
        }
    }
}

/// A sequence that neither starts nor ends with a separator character.
pub open spec fn is_trimmed(s: Seq<char>) -> bool {
    s.len() > 0 ==> (!is_space(s.first()) && !is_space(s.last()))
}

/// A sequence with no newline in it.
pub open spec fn newline_free(s: Seq<char>) -> bool {
    forall|i: int| 0 <= i < s.len() ==> (#[trigger] s[i]) != '\n'
}

/// Trimming an already-trimmed sequence changes nothing.
pub proof fn lemma_trim_noop(s: Seq<char>)
    requires
        is_trimmed(s),
    ensures
        spec_trim(s) == s,
{
    lemma_leading_spaces(s);
    if s.len() > 0 {
        assert(leading_spaces(s) == 0) by {
            if leading_spaces(s) > 0 {
                assert(is_space(s[0]));
            }
        }
    }
    let t = s.skip(leading_spaces(s));
    assert(t =~= s);
    lemma_trailing_spaces(t);
    if s.len() > 0 {
        assert(trailing_spaces(t) == 0) by {
            if trailing_spaces(t) > 0 {
                assert(is_space(t[t.len() - 1]));
            }
        }
    }
    assert(t.take(t.len() - trailing_spaces(t)) =~= s);
}

/// What trimming yields is trimmed, and keeps only characters of the input.
pub proof fn lemma_trim_trimmed(s: Seq<char>)
    ensures
        is_trimmed(spec_trim(s)),
        newline_free(s) ==> newline_free(spec_trim(s)),
{
    lemma_leading_spaces(s);
    let lead = leading_spaces(s);
    let t = s.skip(lead);
    lemma_trailing_spaces(t);
    let trail = trailing_spaces(t);
    let r = t.take(t.len() - trail);
    if r.len() > 0 {
        assert(r.first() == s[lead]);
        assert(!is_space(s[lead]));
        assert(r.last() == t[t.len() - trail - 1]);
    }
    if newline_free(s) {
        assert forall|i: int| 0 <= i < r.len() implies (#[trigger] r[i]) != '\n' by {
            assert(r[i] == s[lead + i]);
        }
    }
}

/// Splitting a text that ends with a newline distributes over concatenation.
pub proof fn lemma_lines_concat(a: Seq<char>, b: Seq<char>)
    requires
        a.len() > 0,
        a.last() == '\n',
    ensures
        spec_lines(a + b) == spec_lines(a) + spec_lines(b),
    decreases a.len(),
{
    assert(a[a.len() - 1] == '\n');
    assert(a.contains('\n'));
    lemma_first_index_of(a, '\n');
    let fi = first_index_of(a, '\n');
    let ab = a + b;
    assert(ab.len() > 0);
    assert(ab[fi] == a[fi]);
    assert(ab.contains('\n'));
    lemma_first_index_of(ab, '\n');
    let fi2 = first_index_of(ab, '\n');
    if fi2 < fi {
        assert(ab[fi2] == a[fi2]);
        assert(a[fi2] != '\n');
        assert(false);
    }
    if fi2 > fi {
        assert(ab[fi] != '\n');
        assert(false);
    }
    assert(fi2 == fi);
    assert(ab.take(fi) =~= a.take(fi));
    let rest = a.skip(fi + 1);
    assert(ab.skip(fi + 1) =~= rest + b);
    if rest.len() == 0 {
        assert(rest + b =~= b);
        assert(a.skip(fi + 1) =~= Seq::<char>::empty());
        assert(spec_lines(a) =~= seq![a.take(fi)] + spec_lines(Seq::<char>::empty()));
        assert(seq![a.take(fi)] + Seq::<Seq<char>>::empty() =~= seq![a.take(fi)]);
        assert((seq![a.take(fi)] + Seq::<Seq<char>>::empty()) + spec_lines(b) =~= seq![a.take(fi)]
            + spec_lines(b));
    } else {
        assert(rest.last() == a.last());
        lemma_lines_concat(rest, b);
        assert(spec_lines(ab) == seq![a.take(fi)] + (spec_lines(rest) + spec_lines(b)));
        assert(seq![a.take(fi)] + (spec_lines(rest) + spec_lines(b)) =~= (seq![a.take(fi)]
            + spec_lines(rest)) + spec_lines(b));
    }
}

/// A newline-free content followed by one newline is exactly one line.
pub proof fn lemma_lines_single(content: Seq<char>)
    requires
        newline_free(content),
    ensures
        spec_lines(content + seq!['\n']) == seq![content],
{
    let line = content + seq!['\n'];
    assert(line[line.len() - 1] == '\n');
    assert(line.contains('\n'));
    lemma_first_index_of(line, '\n');
    let fi = first_index_of(line, '\n');
    if fi < content.len() {
        assert(line[fi] == content[fi]);
        assert(content[fi] != '\n');
        assert(false);
    }
    assert(fi == content.len());
    assert(line.take(fi) =~= content);
    assert(line.skip(fi + 1) =~= Seq::<char>::empty());
    assert(spec_lines(line) == seq![line.take(fi)] + spec_lines(line.skip(fi + 1)));
    assert(spec_lines(line.skip(fi + 1)) =~= Seq::<Seq<char>>::empty());
    assert(seq![content] + Seq::<Seq<char>>::empty() =~= seq![content]);
}

/// Every line of a split text is newline-free.
pub proof fn lemma_lines_newline_free(s: Seq<char>)
    ensures
        forall|i: int|
            0 <= i < spec_lines(s).len() ==> newline_free(#[trigger] spec_lines(s)[i]),
    decreases s.len(),
{
    if s.len() > 0 {
        if s.contains('\n') {
            lemma_first_index_of(s, '\n');
            let fi = first_index_of(s, '\n');
            lemma_lines_newline_free(s.skip(fi + 1));
            assert forall|i: int| 0 <= i < spec_lines(s).len() implies newline_free(
                #[trigger] spec_lines(s)[i],
            ) by {
                if i == 0 {
                    assert(spec_lines(s)[0] == s.take(fi));
                    assert forall|k: int| 0 <= k < s.take(fi).len() implies (#[trigger] s.take(
                        fi,
                    )[k]) != '\n' by {
                        assert(s.take(fi)[k] == s[k]);
                    }
                } else {
                    assert(spec_lines(s)[i] == spec_lines(s.skip(fi + 1))[i - 1]);
                }
            }
        } else {
            assert forall|i: int| 0 <= i < spec_lines(s).len() implies newline_free(
                #[trigger] spec_lines(s)[i],
            ) by {
                assert(spec_lines(s)[i] == s);
                assert forall|k: int| 0 <= k < s.len() implies (#[trigger] s[k]) != '\n' by {
                    if s[k] == '\n' {
                        assert(s.contains('\n'));
                    }
                }
            }
        }
    }
}

/// Trims leading and trailing separator characters.
pub fn trim_str<'a>(s: &'a str) -> (r: &'a str)
    ensures
        r@ == spec_trim(s@),
{
    let n = s.unicode_len();
    let mut a: usize = 0;
    while a < n && is_space_char(s.get_char(a))
        invariant
            0 <= a <= n,
            n == s@.len(),
            forall|k: int| 0 <= k < a ==> is_space(#[trigger] s@[k]),
        decreases n - a,
    {
        a = a + 1;
    }
    proof {
        lemma_leading_spaces(s@);
        let lead = leading_spaces(s@);
        if lead < a as int {
            assert(is_space(s@[lead]));
            assert(false);
        }
        if lead > a as int {
            assert(is_space(s@[a as int]));
            assert(false);
        }
        assert(lead == a as int);
    }
    let mut b: usize = n;
    while b > a && is_space_char(s.get_char(b - 1))
        invariant
            a <= b <= n,
            n == s@.len(),
            forall|k: int| b <= k < n ==> is_space(#[trigger] s@[k]),
        decreases b,
    {
        b = b - 1;
    }
    let ghost t = s@.skip(a as int);
    proof {
        lemma_trailing_spaces(t);
        let trail = trailing_spaces(t);
        assert(t.len() == n - a);
        assert forall|k: int| b - a <= k < t.len() implies is_space(#[trigger] t[k]) by {
            assert(t[k] == s@[a + k]);
        }
        if t.len() - trail > b as int - a as int {
            // the character just before the untrimmed end would be a space
            assert(is_space(t[t.len() - trail - 1])) by {
                assert(t[t.len() - trail - 1] == s@[a + (t.len() - trail - 1)]);
                assert(b <= a + (t.len() - trail - 1) < n);
            }
            assert(false);
        }
        if t.len() - trail < b as int - a as int {
            // b stopped at a non-space character inside the trailing run
            assert(b > a);
            assert(!is_space(s@[b as int - 1]));
            assert(t[b as int - 1 - a] == s@[b as int - 1]);
            assert(t.len() - trail <= b as int - 1 - a < t.len());
            assert(false);
        }
        assert(t.len() - trail == b as int - a as int);
        assert(t.take(b as int - a as int) =~= s@.subrange(a as int, b as int));
    }
    s.substring_char(a, b)
}

} // verus!
