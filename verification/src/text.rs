//! Character-level text operations with their specifications.

use vstd::prelude::*;

verus! {

/// The Unicode `White_Space` property, which `char::is_whitespace` tests.
pub open spec fn is_space(c: char) -> bool {
    let u = c as u32;
    ||| 9 <= u <= 13
    ||| u == 32
    ||| u == 0x85
    ||| u == 0xa0
    ||| u == 0x1680
    ||| 0x2000 <= u <= 0x200a
    ||| u == 0x2028
    ||| u == 0x2029
    ||| u == 0x202f
    ||| u == 0x205f
    ||| u == 0x3000
}

/// The view of an optional text.
pub open spec fn opt_view(o: Option<String>) -> Option<Seq<char>> {
    match o {
        Some(s) => Some(s@),
        None => None,
    }
}

/// `s` without its leading white space.
pub open spec fn trim_start(s: Seq<char>) -> Seq<char>
    decreases s.len(),
{
    if s.len() > 0 && is_space(s[0]) {
        trim_start(s.skip(1))
    } else {
        s
    }
}

/// `s` without its trailing white space.
pub open spec fn trim_end(s: Seq<char>) -> Seq<char>
    decreases s.len(),
{
    if s.len() > 0 && is_space(s.last()) {
        trim_end(s.drop_last())
    } else {
        s
    }
}

/// `s` without leading and trailing white space (what `str::trim` returns).
pub open spec fn trim(s: Seq<char>) -> Seq<char> {
    trim_end(trim_start(s))
}

/// What trimming the end leaves: a prefix of `s` that ends with a
/// non-space character, if it is not empty.
pub proof fn lemma_trim_end_shape(s: Seq<char>)
    ensures
        trim_end(s).len() <= s.len(),
        trim_end(s) == s.take(trim_end(s).len() as int),
        trim_end(s).len() > 0 ==> !is_space(trim_end(s).last()),
        forall|k: int| trim_end(s).len() <= k < s.len() ==> is_space(#[trigger] s[k]),
    decreases s.len(),
{
    if s.len() > 0 && is_space(s.last()) {
        lemma_trim_end_shape(s.drop_last());
        let t = trim_end(s.drop_last());
        assert(s.drop_last().take(t.len() as int) =~= s.take(t.len() as int));
        assert forall|k: int| t.len() <= k < s.len() implies is_space(#[trigger] s[k]) by {
            if k < s.len() - 1 {
                assert(s[k] == s.drop_last()[k]);
            }
        }
    } else {
        assert(s.take(s.len() as int) =~= s);
    }
}

/// Law: trimming leaves no white space at either end, so trimming again
/// changes nothing.
pub proof fn lemma_trim_edges(s: Seq<char>)
    ensures
        trim(s).len() > 0 ==> !is_space(trim(s)[0]) && !is_space(trim(s).last()),
        trim(trim(s)) == trim(s),
{
    let a = trim_start(s);
    lemma_trim_start_shape(s);
    lemma_trim_end_shape(a);
    let t = trim_end(a);
    if t.len() > 0 {
        assert(t[0] == a[0]);
    }
    assert(trim_start(t) == t);
    assert(trim_end(t) == t);
}

/// Whether `c` is white space.
pub fn is_space_char(c: char) -> (r: bool)
    ensures
        r == is_space(c),
{
    let u = c as u32;
    (9 <= u && u <= 13) || u == 32 || u == 0x85 || u == 0xa0 || u == 0x1680 || (0x2000 <= u && u
        <= 0x200a) || u == 0x2028 || u == 0x2029 || u == 0x202f || u == 0x205f || u == 0x3000
}

/// `s` with leading and trailing white space removed.
pub fn trim_str(s: &str) -> (r: String)
    ensures
        r@ == trim(s@),
{
    let n = s.unicode_len();
    let mut a: usize = 0;
    assert(s@.skip(0) =~= s@);
    loop
        invariant
            a <= n,
            n == s@.len(),
            trim_start(s@) == trim_start(s@.skip(a as int)),
        ensures
            a <= n,
            trim_start(s@) == s@.skip(a as int),
        decreases n - a,
    {
        if a == n {
            break;
        }
        if !is_space_char(s.get_char(a)) {
            break;
        }
        assert(s@.skip(a as int).skip(1) =~= s@.skip(a + 1));
        a = a + 1;
    }
    let mut b: usize = n;
    assert(s@.skip(a as int) =~= s@.subrange(a as int, n as int));
    loop
        invariant
            a <= b <= n,
            n == s@.len(),
            trim(s@) == trim_end(s@.subrange(a as int, b as int)),
        ensures
            a <= b <= n,
            trim(s@) == s@.subrange(a as int, b as int),
        decreases b - a,
    {
        if b == a {
            break;
        }
        if !is_space_char(s.get_char(b - 1)) {
            break;
        }
        assert(s@.subrange(a as int, b as int).drop_last() =~= s@.subrange(a as int, b - 1));
        b = b - 1;
    }
    s.substring_char(a, b).to_owned()
}

/// Whether the characters of `s` from index `a` up to `b` are exactly `t`.
pub fn range_equals(s: &str, a: usize, b: usize, t: &str) -> (r: bool)
    requires
        a <= b <= s@.len(),
    ensures
        r == (s@.subrange(a as int, b as int) == t@),
{
    let m = t.unicode_len();
    if b - a != m {
        return false;
    }
    let mut i: usize = 0;
    while i < m
        invariant
            i <= m,
            m == t@.len(),
            b - a == m,
            a <= b <= s@.len(),
            forall|j: int| 0 <= j < i ==> s@[a + j] == t@[j],
        decreases m - i,
    {
        if s.get_char(a + i) != t.get_char(i) {
            assert(s@.subrange(a as int, b as int)[i as int] != t@[i as int]);
            return false;
        }
        i = i + 1;
    }
    assert(s@.subrange(a as int, b as int) =~= t@);
    true
}

/// Whether `s` and `t` hold the same characters.
pub fn str_equals(s: &str, t: &str) -> (r: bool)
    ensures
        r == (s@ == t@),
{
    let n = s.unicode_len();
    let r = range_equals(s, 0, n, t);
    assert(s@.subrange(0, n as int) =~= s@);
    r
}

/// `s` with every occurrence of `pat` removed, scanning from the left and
/// taking matches that do not overlap (what `str::replace(pat, "")` returns).
pub open spec fn remove_all(s: Seq<char>, pat: Seq<char>) -> Seq<char>
    decreases s.len(),
{
    if s.len() == 0 {
        s
    } else if 0 < pat.len() <= s.len() && s.take(pat.len() as int) == pat {
        remove_all(s.skip(pat.len() as int), pat)
    } else {
        seq![s[0]] + remove_all(s.skip(1), pat)
    }
}

/// Law: text in which `pat` occurs nowhere is kept whole.
pub proof fn lemma_remove_all_absent(s: Seq<char>, pat: Seq<char>)
    requires
        pat.len() > 0,
        forall|i: int| 0 <= i <= s.len() - pat.len() ==> #[trigger] s.subrange(i, i + pat.len()) != pat,
    ensures
        remove_all(s, pat) == s,
    decreases s.len(),
{
    if s.len() > 0 {
        if pat.len() <= s.len() {
            let i: int = 0;
            assert(s.subrange(i, i + pat.len()) != pat);
            assert(s.take(pat.len() as int) =~= s.subrange(i, i + pat.len()));
        }
        let t = s.skip(1);
        assert forall|i: int| 0 <= i <= t.len() - pat.len() implies #[trigger] t.subrange(
            i,
            i + pat.len(),
        ) != pat by {
            assert(t.subrange(i, i + pat.len()) =~= s.subrange(i + 1, i + 1 + pat.len()));
        }
        lemma_remove_all_absent(t, pat);
        assert(seq![s[0]] + t =~= s);
    }
}

/// Law: an occurrence of `pat` after text `a` in which no character starts
/// `pat` is removed, and `a` is kept: the text becomes `a` followed by what
/// removal leaves of `b`.
pub proof fn lemma_remove_all_first(a: Seq<char>, pat: Seq<char>, b: Seq<char>)
    requires
        pat.len() > 0,
        forall|k: int| 0 <= k < a.len() ==> a[k] != pat[0],
    ensures
        remove_all(a + pat + b, pat) == a + remove_all(b, pat),
    decreases a.len(),
{
    let s = a + pat + b;
    if a.len() == 0 {
        assert(s =~= pat + b);
        assert(s.take(pat.len() as int) =~= pat);
        assert(s.skip(pat.len() as int) =~= b);
        assert(a + remove_all(b, pat) =~= remove_all(b, pat));
    } else {
        assert(s.take(pat.len() as int)[0] == a[0]);
        assert(s.take(pat.len() as int) != pat);
        assert(s.skip(1) =~= a.skip(1) + pat + b);
        lemma_remove_all_first(a.skip(1), pat, b);
        assert(seq![a[0]] + (a.skip(1) + remove_all(b, pat)) =~= a + remove_all(b, pat));
    }
}

/// `s` with every occurrence of the non-empty `pat` removed.
pub fn remove_all_str(s: &str, pat: &str) -> (r: String)
    requires
        pat@.len() > 0,
    ensures
        r@ == remove_all(s@, pat@),
{
    let n = s.unicode_len();
    let m = pat.unicode_len();
    let mut out = String::new();
    let mut start: usize = 0;
    let mut i: usize = 0;
    assert(s@.skip(0) =~= s@);
    while i < n
        invariant
            start <= i <= n,
            n == s@.len(),
            m == pat@.len(),
            m > 0,
            out@ + s@.subrange(start as int, i as int) + remove_all(s@.skip(i as int), pat@)
                == remove_all(s@, pat@),
        decreases n - i,
    {
        let ghost rest = s@.skip(i as int);
        if m <= n - i && range_equals(s, i, i + m, pat) {
            assert(rest.take(m as int) =~= s@.subrange(i as int, (i + m) as int));
            assert(rest.skip(m as int) =~= s@.skip((i + m) as int));
            let piece = s.substring_char(start, i);
            out.append(piece);
            i = i + m;
            start = i;
            assert(s@.subrange(start as int, i as int) =~= Seq::<char>::empty());
        } else {
            if m <= n - i {
                assert(rest.take(m as int) =~= s@.subrange(i as int, (i + m) as int));
            }
            assert(rest.skip(1) =~= s@.skip(i + 1));
            assert(rest[0] == s@[i as int]);
            assert(s@.subrange(start as int, i + 1) =~= s@.subrange(start as int, i as int).push(s@[i as int]));
            i = i + 1;
        }
    }
    assert(s@.skip(n as int) =~= Seq::<char>::empty());
    let piece = s.substring_char(start, n);
    out.append(piece);
    out
}

/// The run of non-space characters at the start of `s`.
pub open spec fn leading_word(s: Seq<char>) -> Seq<char>
    decreases s.len(),
{
    if s.len() > 0 && !is_space(s[0]) {
        seq![s[0]] + leading_word(s.skip(1))
    } else {
        Seq::empty()
    }
}

/// What trimming the start leaves: a suffix of `s` that starts with a
/// non-space character, if it is not empty.
pub proof fn lemma_trim_start_shape(s: Seq<char>)
    ensures
        trim_start(s).len() <= s.len(),
        trim_start(s) == s.skip(s.len() - trim_start(s).len()),
        trim_start(s).len() > 0 ==> !is_space(trim_start(s)[0]),
        forall|k: int| 0 <= k < s.len() - trim_start(s).len() ==> is_space(#[trigger] s[k]),
    decreases s.len(),
{
    if s.len() > 0 && is_space(s[0]) {
        lemma_trim_start_shape(s.skip(1));
        let t = trim_start(s.skip(1));
        assert(s.skip(1).skip(s.skip(1).len() - t.len()) =~= s.skip(s.len() - t.len()));
        assert forall|k: int| 0 <= k < s.len() - t.len() implies is_space(#[trigger] s[k]) by {
            if k > 0 {
                assert(s[k] == s.skip(1)[k - 1]);
            }
        }
    } else {
        assert(s.skip(0) =~= s);
    }
}

/// The leading word is a prefix of `s` made of non-space characters, and it
/// is not empty when `s` starts with a non-space character.
pub proof fn lemma_leading_word_shape(s: Seq<char>)
    ensures
        leading_word(s).len() <= s.len(),
        leading_word(s) == s.take(leading_word(s).len() as int),
        forall|k: int| 0 <= k < leading_word(s).len() ==> !is_space(#[trigger] leading_word(s)[k]),
        leading_word(s).len() < s.len() ==> is_space(s[leading_word(s).len() as int]),
        s.len() > 0 && !is_space(s[0]) ==> leading_word(s).len() >= 1,
    decreases s.len(),
{
    if s.len() > 0 && !is_space(s[0]) {
        lemma_leading_word_shape(s.skip(1));
        let w = leading_word(s.skip(1));
        assert(leading_word(s) =~= s.take(w.len() + 1 as int));
        assert forall|k: int| 0 <= k < leading_word(s).len() implies !is_space(
            #[trigger] leading_word(s)[k],
        ) by {
            if k > 0 {
                assert(leading_word(s)[k] == w[k - 1]);
            }
        }
        if leading_word(s).len() < s.len() {
            assert(s[leading_word(s).len() as int] == s.skip(1)[w.len() as int]);
        }
    } else {
        assert(s.take(0) =~= Seq::<char>::empty());
    }
}

/// The white-space separated words of `s`, in order (what
/// `str::split_whitespace` yields).
pub open spec fn words(s: Seq<char>) -> Seq<Seq<char>>
    decreases s.len(),
{
    let t = trim_start(s);
    if t.len() == 0 {
        Seq::empty()
    } else {
        let w = leading_word(t);
        proof {
            lemma_trim_start_shape(s);
            lemma_leading_word_shape(t);
        }
        seq![w] + words(t.skip(w.len() as int))
    }
}

/// Every word is non-empty and holds no white space.
pub proof fn lemma_words_shape(s: Seq<char>)
    ensures
        forall|i: int| 0 <= i < words(s).len() ==> (#[trigger] words(s)[i]).len() > 0,
        forall|i: int, k: int|
            0 <= i < words(s).len() && 0 <= k < words(s)[i].len() ==> !is_space(
                #[trigger] words(s)[i][k],
            ),
    decreases s.len(),
{
    let t = trim_start(s);
    lemma_trim_start_shape(s);
    if t.len() > 0 {
        let w = leading_word(t);
        lemma_leading_word_shape(t);
        let rest = t.skip(w.len() as int);
        lemma_words_shape(rest);
        assert(words(s) == seq![w] + words(rest));
        assert forall|i: int| 0 <= i < words(s).len() implies (#[trigger] words(s)[i]).len() > 0 by {
            if i > 0 {
                assert(words(s)[i] == words(rest)[i - 1]);
            }
        }
        assert forall|i: int, k: int|
            0 <= i < words(s).len() && 0 <= k < words(s)[i].len() implies !is_space(
                #[trigger] words(s)[i][k],
            ) by {
            if i > 0 {
                assert(words(s)[i] == words(rest)[i - 1]);
            }
        }
    }
}

/// Law: white space in front of `y` is what trimming the start removes
/// first.
pub proof fn lemma_trim_start_after_spaces(x: Seq<char>, y: Seq<char>)
    requires
        forall|k: int| 0 <= k < x.len() ==> is_space(#[trigger] x[k]),
    ensures
        trim_start(x + y) == trim_start(y),
    decreases x.len(),
{
    if x.len() == 0 {
        assert(x + y =~= y);
    } else {
        assert((x + y)[0] == x[0]);
        assert((x + y).skip(1) =~= x.skip(1) + y);
        assert forall|k: int| 0 <= k < x.skip(1).len() implies is_space(#[trigger] x.skip(1)[k]) by {
            assert(x.skip(1)[k] == x[k + 1]);
        }
        lemma_trim_start_after_spaces(x.skip(1), y);
    }
}

/// Law: white space after `x` is what trimming the end removes first.
pub proof fn lemma_trim_end_before_spaces(x: Seq<char>, y: Seq<char>)
    requires
        forall|k: int| 0 <= k < y.len() ==> is_space(#[trigger] y[k]),
    ensures
        trim_end(x + y) == trim_end(x),
    decreases y.len(),
{
    if y.len() == 0 {
        assert(x + y =~= x);
    } else {
        assert((x + y).last() == y[y.len() - 1]);
        assert((x + y).drop_last() =~= x + y.drop_last());
        assert forall|k: int| 0 <= k < y.drop_last().len() implies is_space(
            #[trigger] y.drop_last()[k],
        ) by {
            assert(y.drop_last()[k] == y[k]);
        }
        lemma_trim_end_before_spaces(x, y.drop_last());
    }
}

/// The leading word of `x` is the leading word of `x + y` when it ends
/// inside `x` or `y` starts with white space.
proof fn lemma_leading_word_append(x: Seq<char>, y: Seq<char>)
    requires
        leading_word(x).len() < x.len() || (y.len() > 0 && is_space(y[0])),
    ensures
        leading_word(x + y) == leading_word(x),
    decreases x.len(),
{
    if x.len() == 0 {
        assert(x + y =~= y);
    } else {
        assert((x + y)[0] == x[0]);
        if !is_space(x[0]) {
            assert((x + y).skip(1) =~= x.skip(1) + y);
            lemma_leading_word_append(x.skip(1), y);
        }
    }
}

/// Law: a white-space character separates words: the words of `a`, a white
/// space character and `b` are the words of `a` followed by those of `b`.
pub proof fn lemma_words_split(a: Seq<char>, c: char, b: Seq<char>)
    requires
        is_space(c),
    ensures
        words(a + seq![c] + b) == words(a) + words(b),
    decreases a.len(),
{
    let s = a + seq![c] + b;
    let t = trim_start(a);
    lemma_trim_start_shape(a);
    let p = a.len() - t.len();
    assert(a =~= a.take(p) + t);
    assert forall|k: int| 0 <= k < a.take(p).len() implies is_space(#[trigger] a.take(p)[k]) by {
        assert(a.take(p)[k] == a[k]);
    }
    let u = t + (seq![c] + b);
    assert(s =~= a.take(p) + u);
    lemma_trim_start_after_spaces(a.take(p), u);
    if t.len() == 0 {
        assert(u =~= seq![c] + b);
        lemma_trim_start_after_spaces(seq![c], b);
        assert(words(a) =~= Seq::<Seq<char>>::empty());
        assert(words(a) + words(b) =~= words(b));
    } else {
        assert(u[0] == t[0]);
        assert(trim_start(u) == u);
        let w = leading_word(t);
        lemma_leading_word_shape(t);
        lemma_leading_word_append(t, seq![c] + b);
        let a2 = t.skip(w.len() as int);
        assert(u.skip(w.len() as int) =~= a2 + seq![c] + b);
        lemma_words_split(a2, c, b);
        assert(words(a) == seq![w] + words(a2));
        assert(words(s) == seq![w] + words(a2 + seq![c] + b));
        assert(seq![w] + (words(a2) + words(b)) =~= (seq![w] + words(a2)) + words(b));
    }
}

/// Law: text made of white space alone holds no word.
pub proof fn lemma_words_blank(s: Seq<char>)
    requires
        forall|k: int| 0 <= k < s.len() ==> is_space(#[trigger] s[k]),
    ensures
        words(s) == Seq::<Seq<char>>::empty(),
{
    lemma_trim_start_after_spaces(s, Seq::empty());
    assert(s + Seq::<char>::empty() =~= s);
}

/// Law: a non-empty text without white space is a single word.
pub proof fn lemma_words_single(s: Seq<char>)
    requires
        s.len() > 0,
        forall|k: int| 0 <= k < s.len() ==> !is_space(#[trigger] s[k]),
    ensures
        words(s) == seq![s],
{
    assert(trim_start(s) == s);
    lemma_leading_word_shape(s);
    let w = leading_word(s);
    assert(w.len() == s.len());
    assert(w =~= s);
    assert(s.skip(s.len() as int) =~= Seq::<char>::empty());
    lemma_words_blank(Seq::<char>::empty());
    assert(words(s) =~= seq![s] + Seq::<Seq<char>>::empty());
}

/// The white-space separated words of `s`.
pub fn split_whitespace(s: &str) -> (r: Vec<String>)
    ensures
        r@.map_values(|w: String| w@) == words(s@),
{
    let n = s.unicode_len();
    let mut out: Vec<String> = Vec::new();
    let mut i: usize = 0;
    assert(s@.skip(0) =~= s@);
    loop
        invariant
            i <= n,
            n == s@.len(),
            out@.map_values(|w: String| w@) + words(s@.skip(i as int)) == words(s@),
        ensures
            out@.map_values(|w: String| w@) == words(s@),
        decreases n - i,
    {
        let mut j: usize = i;
        loop
            invariant
                i <= j <= n,
                n == s@.len(),
                trim_start(s@.skip(i as int)) == trim_start(s@.skip(j as int)),
            ensures
                i <= j <= n,
                trim_start(s@.skip(i as int)) == s@.skip(j as int),
            decreases n - j,
        {
            if j == n {
                break;
            }
            if !is_space_char(s.get_char(j)) {
                break;
            }
            assert(s@.skip(j as int).skip(1) =~= s@.skip(j + 1));
            j = j + 1;
        }
        if j == n {
            assert(s@.skip(n as int) =~= Seq::<char>::empty());
            assert(words(s@.skip(i as int)) =~= Seq::<Seq<char>>::empty());
            assert(out@.map_values(|w: String| w@) + Seq::<Seq<char>>::empty() =~= out@.map_values(
                |w: String| w@,
            ));
            break;
        }
        let mut k: usize = j;
        proof {
            lemma_trim_start_shape(s@.skip(i as int));
            assert(s@.skip(j as int)[0] == s@[j as int]);
        }
        assert(s@.subrange(j as int, j as int) =~= Seq::<char>::empty());
        loop
            invariant
                j <= k <= n,
                j < n,
                n == s@.len(),
                !is_space(s@[j as int]),
                leading_word(s@.skip(j as int)) == s@.subrange(j as int, k as int) + leading_word(
                    s@.skip(k as int),
                ),
            ensures
                j < k <= n,
                leading_word(s@.skip(j as int)) == s@.subrange(j as int, k as int),
            decreases n - k,
        {
            if k == n {
                assert(s@.skip(n as int) =~= Seq::<char>::empty());
                assert(s@.subrange(j as int, k as int) + Seq::<char>::empty() =~= s@.subrange(
                    j as int,
                    k as int,
                ));
                break;
            }
            if is_space_char(s.get_char(k)) {
                assert(s@.subrange(j as int, k as int) + Seq::<char>::empty() =~= s@.subrange(
                    j as int,
                    k as int,
                ));
                break;
            }
            assert(s@.skip(k as int).skip(1) =~= s@.skip(k + 1));
            assert(s@.subrange(j as int, k + 1) =~= s@.subrange(j as int, k as int) + seq![
                s@[k as int],
            ]);
            assert(s@.subrange(j as int, k as int) + leading_word(s@.skip(k as int)) =~= s@.subrange(
                j as int,
                k + 1,
            ) + leading_word(s@.skip(k + 1)));
            k = k + 1;
        }
        let word = s.substring_char(j, k).to_owned();
        let ghost before = out@.map_values(|w: String| w@);
        out.push(word);
        assert(out@.map_values(|w: String| w@) =~= before.push(s@.subrange(j as int, k as int)));
        assert(s@.skip(j as int).skip((k - j) as int) =~= s@.skip(k as int));
        assert(words(s@.skip(i as int)) == seq![s@.subrange(j as int, k as int)] + words(
            s@.skip(k as int),
        ));
        assert(before + words(s@.skip(i as int)) =~= out@.map_values(|w: String| w@) + words(
            s@.skip(k as int),
        ));
        i = k;
    }
    out
}

/// `s` without the copies of `c` at its start.
pub open spec fn strip_start(s: Seq<char>, c: char) -> Seq<char>
    decreases s.len(),
{
    if s.len() > 0 && s[0] == c {
        strip_start(s.skip(1), c)
    } else {
        s
    }
}

/// `s` without the copies of `c` at its end.
pub open spec fn strip_end(s: Seq<char>, c: char) -> Seq<char>
    decreases s.len(),
{
    if s.len() > 0 && s.last() == c {
        strip_end(s.drop_last(), c)
    } else {
        s
    }
}

/// `s` without the copies of `c` at either end (what `str::trim_matches`
/// returns for a character).
pub open spec fn trim_matches(s: Seq<char>, c: char) -> Seq<char> {
    strip_end(strip_start(s, c), c)
}

/// `s` with the copies of `c` at either end removed.
pub fn trim_matches_str(s: &str, c: char) -> (r: String)
    ensures
        r@ == trim_matches(s@, c),
{
    let n = s.unicode_len();
    let mut a: usize = 0;
    assert(s@.skip(0) =~= s@);
    loop
        invariant
            a <= n,
            n == s@.len(),
            strip_start(s@, c) == strip_start(s@.skip(a as int), c),
        ensures
            a <= n,
            strip_start(s@, c) == s@.skip(a as int),
        decreases n - a,
    {
        if a == n {
            break;
        }
        if s.get_char(a) != c {
            break;
        }
        assert(s@.skip(a as int).skip(1) =~= s@.skip(a + 1));
        a = a + 1;
    }
    let mut b: usize = n;
    assert(s@.skip(a as int) =~= s@.subrange(a as int, n as int));
    loop
        invariant
            a <= b <= n,
            n == s@.len(),
            trim_matches(s@, c) == strip_end(s@.subrange(a as int, b as int), c),
        ensures
            a <= b <= n,
            trim_matches(s@, c) == s@.subrange(a as int, b as int),
        decreases b - a,
    {
        if b == a {
            break;
        }
        if s.get_char(b - 1) != c {
            break;
        }
        assert(s@.subrange(a as int, b as int).drop_last() =~= s@.subrange(a as int, b - 1));
        b = b - 1;
    }
    s.substring_char(a, b).to_owned()
}

/// The index of the first occurrence of `pat` in `s` (what `str::find`
/// locates), if there is one.
pub open spec fn find(s: Seq<char>, pat: Seq<char>) -> Option<int>
    decreases s.len(),
{
    if s.len() < pat.len() {
        None
    } else if s.take(pat.len() as int) == pat {
        Some(0)
    } else if s.len() == 0 {
        None
    } else {
        match find(s.skip(1), pat) {
            Some(i) => Some(i + 1),
            None => None,
        }
    }
}

/// Where `find` locates `pat`, `pat` lies within `s` and occurs nowhere
/// before; where it finds nothing, `pat` occurs nowhere in `s`.
pub proof fn lemma_find(s: Seq<char>, pat: Seq<char>)
    ensures
        find(s, pat) matches Some(i) ==> 0 <= i && i + pat.len() <= s.len() && s.subrange(
            i,
            i + pat.len(),
        ) == pat,
        forall|j: int|
            0 <= j && j + pat.len() <= s.len() && (find(s, pat) is None || j < find(
                s,
                pat,
            ).unwrap()) ==> #[trigger] s.subrange(j, j + pat.len()) != pat,
    decreases s.len(),
{
    if s.len() >= pat.len() && s.take(pat.len() as int) != pat && s.len() > 0 {
        lemma_find(s.skip(1), pat);
        if let Some(i) = find(s.skip(1), pat) {
            assert(s.subrange(i + 1, i + 1 + pat.len()) =~= s.skip(1).subrange(i, i + pat.len()));
        }
        assert forall|j: int|
            0 <= j && j + pat.len() <= s.len() && (find(s, pat) is None || j < find(
                s,
                pat,
            ).unwrap()) implies #[trigger] s.subrange(j, j + pat.len()) != pat by {
            if j == 0 {
                assert(s.subrange(0, pat.len() as int) =~= s.take(pat.len() as int));
            } else {
                assert(s.subrange(j, j + pat.len()) =~= s.skip(1).subrange(j - 1, j - 1 + pat.len()));
            }
        }
    } else if s.len() >= pat.len() && s.take(pat.len() as int) == pat {
        assert(s.subrange(0, pat.len() as int) =~= s.take(pat.len() as int));
    }
}

/// The index of the first occurrence of `pat` in `s`, if there is one.
pub fn find_str(s: &str, pat: &str) -> (r: Option<usize>)
    ensures
        match r {
            Some(i) => find(s@, pat@) == Some(i as int) && i + pat@.len() <= s@.len(),
            None => find(s@, pat@) is None,
        },
{
    proof {
        lemma_find(s@, pat@);
    }
    let n = s.unicode_len();
    let m = pat.unicode_len();
    let mut i: usize = 0;
    assert(s@.skip(0) =~= s@);
    while i <= n
        invariant
            i <= n + 1,
            n == s@.len(),
            m == pat@.len(),
            i <= n ==> find(s@, pat@) == match find(s@.skip(i as int), pat@) {
                Some(k) => Some(k + i),
                None => None,
            },
            i > n ==> find(s@, pat@) is None,
        decreases n + 1 - i,
    {
        let ghost rest = s@.skip(i as int);
        if m > n - i {
            assert(find(rest, pat@) is None);
            return None;
        }
        assert(rest.take(m as int) =~= s@.subrange(i as int, (i + m) as int));
        if range_equals(s, i, i + m, pat) {
            return Some(i);
        }
        if i == n {
            return None;
        }
        assert(rest.skip(1) =~= s@.skip(i + 1));
        i = i + 1;
    }
    None
}

/// `s` ends with `suffix`.
pub open spec fn ends_with(s: Seq<char>, suffix: Seq<char>) -> bool {
    suffix.len() <= s.len() && s.skip(s.len() - suffix.len()) == suffix
}

/// Whether `s` ends with `suffix`.
pub fn ends_with_str(s: &str, suffix: &str) -> (r: bool)
    ensures
        r == ends_with(s@, suffix@),
{
    let n = s.unicode_len();
    let m = suffix.unicode_len();
    if m > n {
        return false;
    }
    assert(s@.subrange((n - m) as int, n as int) =~= s@.skip((n - m) as int));
    range_equals(s, n - m, n, suffix)
}


/// Law: trimming keeps every character that is not white space, and
/// everything it keeps comes from the text.
pub proof fn lemma_trim_chars(s: Seq<char>)
    ensures
        forall|k: int| 0 <= k < trim(s).len() ==> s.contains(#[trigger] trim(s)[k]),
        forall|c: char| s.contains(c) && !is_space(c) ==> #[trigger] trim(s).contains(c),
{
    let a = trim_start(s);
    lemma_trim_start_shape(s);
    lemma_trim_end_shape(a);
    let m = s.len() - a.len();
    let t = trim_end(a);
    assert forall|k: int| 0 <= k < t.len() implies s.contains(#[trigger] t[k]) by {
        assert(t[k] == a[k]);
        assert(a[k] == s[m + k]);
    }
    assert forall|c: char| s.contains(c) && !is_space(c) implies #[trigger] t.contains(c) by {
        let i = choose|i: int| 0 <= i < s.len() && s[i] == c;
        assert(i >= m);
        assert(a[i - m] == c);
        assert(i - m < t.len());
        assert(t[i - m] == c);
    }
}

/// What stripping `c` leaves: a suffix of `s` for the start, a prefix for the
/// end.
pub proof fn lemma_strip_shape(s: Seq<char>, c: char)
    ensures
        strip_start(s, c).len() <= s.len(),
        strip_start(s, c) == s.skip(s.len() - strip_start(s, c).len()),
        strip_end(s, c).len() <= s.len(),
        strip_end(s, c) == s.take(strip_end(s, c).len() as int),
    decreases s.len(),
{
    if s.len() > 0 {
        lemma_strip_shape(s.skip(1), c);
        lemma_strip_shape(s.drop_last(), c);
        if s[0] == c {
            let t = strip_start(s.skip(1), c);
            assert(s.skip(1).skip(s.skip(1).len() - t.len()) =~= s.skip(s.len() - t.len()));
        } else {
            assert(s.skip(0) =~= s);
        }
        if s.last() == c {
            let t = strip_end(s.drop_last(), c);
            assert(s.drop_last().take(t.len() as int) =~= s.take(t.len() as int));
        } else {
            assert(s.take(s.len() as int) =~= s);
        }
    } else {
        assert(s.skip(0) =~= s);
        assert(s.take(0) =~= s);
    }
}

/// Law: everything that `trim_matches` keeps comes from the text.
pub proof fn lemma_trim_matches_chars(s: Seq<char>, c: char)
    ensures
        forall|k: int| 0 <= k < trim_matches(s, c).len() ==> s.contains(
            #[trigger] trim_matches(s, c)[k],
        ),
{
    let a = strip_start(s, c);
    lemma_strip_shape(s, c);
    lemma_strip_shape(a, c);
    let m = s.len() - a.len();
    let t = strip_end(a, c);
    assert forall|k: int| 0 <= k < t.len() implies s.contains(#[trigger] t[k]) by {
        assert(t[k] == a[k]);
        assert(a[k] == s[m + k]);
    }
}

/// The code of `c` with ASCII upper-case letters folded to lower case.
pub open spec fn ascii_fold(c: char) -> u32 {
    let u = c as u32;
    if 65 <= u <= 90 {
        (u + 32) as u32
    } else {
        u
    }
}

/// `a` and `b` hold the same characters, ignoring ASCII case.
pub open spec fn same_ignoring_ascii_case(a: Seq<char>, b: Seq<char>) -> bool {
    a.len() == b.len() && forall|i: int| 0 <= i < a.len() ==> ascii_fold(a[i]) == ascii_fold(b[i])
}

/// The index of the first occurrence of `pat` in `s` when ASCII case is
/// ignored, if there is one.
pub open spec fn find_ignoring_ascii_case(s: Seq<char>, pat: Seq<char>) -> Option<int>
    decreases s.len(),
{
    if s.len() < pat.len() {
        None
    } else if same_ignoring_ascii_case(s.take(pat.len() as int), pat) {
        Some(0)
    } else if s.len() == 0 {
        None
    } else {
        match find_ignoring_ascii_case(s.skip(1), pat) {
            Some(i) => Some(i + 1),
            None => None,
        }
    }
}

/// Where `find_ignoring_ascii_case` locates `pat`, a match lies within `s`.
pub proof fn lemma_find_ignoring_ascii_case(s: Seq<char>, pat: Seq<char>)
    ensures
        find_ignoring_ascii_case(s, pat) matches Some(i) ==> 0 <= i && i + pat.len() <= s.len()
            && same_ignoring_ascii_case(s.subrange(i, i + pat.len()), pat),
        forall|j: int|
            0 <= j && j + pat.len() <= s.len() && (find_ignoring_ascii_case(s, pat) is None || j
                < find_ignoring_ascii_case(s, pat).unwrap()) ==> !same_ignoring_ascii_case(
                #[trigger] s.subrange(j, j + pat.len()),
                pat,
            ),
    decreases s.len(),
{
    if s.len() >= pat.len() && !same_ignoring_ascii_case(s.take(pat.len() as int), pat) && s.len()
        > 0 {
        lemma_find_ignoring_ascii_case(s.skip(1), pat);
        if let Some(i) = find_ignoring_ascii_case(s.skip(1), pat) {
            assert(s.subrange(i + 1, i + 1 + pat.len()) =~= s.skip(1).subrange(i, i + pat.len()));
        }
        assert forall|j: int|
            0 <= j && j + pat.len() <= s.len() && (find_ignoring_ascii_case(s, pat) is None || j
                < find_ignoring_ascii_case(s, pat).unwrap()) implies !same_ignoring_ascii_case(
            #[trigger] s.subrange(j, j + pat.len()),
            pat,
        ) by {
            if j == 0 {
                assert(s.subrange(0, pat.len() as int) =~= s.take(pat.len() as int));
            } else {
                assert(s.subrange(j, j + pat.len()) =~= s.skip(1).subrange(
                    j - 1,
                    j - 1 + pat.len(),
                ));
            }
        }
    } else if s.len() >= pat.len() && same_ignoring_ascii_case(s.take(pat.len() as int), pat) {
        assert(s.subrange(0, pat.len() as int) =~= s.take(pat.len() as int));
    }
}

/// The code of `c` with ASCII upper-case letters folded to lower case.
pub fn ascii_fold_char(c: char) -> (r: u32)
    ensures
        r == ascii_fold(c),
{
    let u = c as u32;
    if 65 <= u && u <= 90 {
        u + 32
    } else {
        u
    }
}

/// Whether the characters of `s` from `a` up to `b` are `t`, ignoring ASCII
/// case.
pub fn range_equals_ignoring_ascii_case(s: &str, a: usize, b: usize, t: &str) -> (r: bool)
    requires
        a <= b <= s@.len(),
    ensures
        r == same_ignoring_ascii_case(s@.subrange(a as int, b as int), t@),
{
    let m = t.unicode_len();
    if b - a != m {
        return false;
    }
    let mut i: usize = 0;
    while i < m
        invariant
            i <= m,
            m == t@.len(),
            b - a == m,
            a <= b <= s@.len(),
            forall|j: int|
                0 <= j < i ==> ascii_fold(s@.subrange(a as int, b as int)[j]) == ascii_fold(t@[j]),
        decreases m - i,
    {
        assert(s@.subrange(a as int, b as int)[i as int] == s@[a + i]);
        if ascii_fold_char(s.get_char(a + i)) != ascii_fold_char(t.get_char(i)) {
            return false;
        }
        i = i + 1;
    }
    true
}

/// The index of the first occurrence of `pat` in `s`, ignoring ASCII case,
/// if there is one.
pub fn find_ignoring_ascii_case_str(s: &str, pat: &str) -> (r: Option<usize>)
    ensures
        match r {
            Some(i) => find_ignoring_ascii_case(s@, pat@) == Some(i as int) && i + pat@.len()
                <= s@.len(),
            None => find_ignoring_ascii_case(s@, pat@) is None,
        },
{
    proof {
        lemma_find_ignoring_ascii_case(s@, pat@);
    }
    let n = s.unicode_len();
    let m = pat.unicode_len();
    let mut i: usize = 0;
    assert(s@.skip(0) =~= s@);
    while i <= n
        invariant
            i <= n + 1,
            n == s@.len(),
            m == pat@.len(),
            i <= n ==> find_ignoring_ascii_case(s@, pat@) == match find_ignoring_ascii_case(
                s@.skip(i as int),
                pat@,
            ) {
                Some(k) => Some(k + i),
                None => None,
            },
            i > n ==> find_ignoring_ascii_case(s@, pat@) is None,
        decreases n + 1 - i,
    {
        let ghost rest = s@.skip(i as int);
        if m > n - i {
            assert(find_ignoring_ascii_case(rest, pat@) is None);
            return None;
        }
        assert(rest.take(m as int) =~= s@.subrange(i as int, (i + m) as int));
        if range_equals_ignoring_ascii_case(s, i, i + m, pat) {
            return Some(i);
        }
        if i == n {
            return None;
        }
        assert(rest.skip(1) =~= s@.skip(i + 1));
        i = i + 1;
    }
    None
}

/// The index of the last `c` in `s`, or -1.
pub open spec fn last_index_of(s: Seq<char>, c: char) -> int
    decreases s.len(),
{
    if s.len() == 0 {
        -1
    } else if s.last() == c {
        s.len() - 1
    } else {
        last_index_of(s.drop_last(), c)
    }
}

/// `last_index_of` finds `c` or is -1.
pub proof fn lemma_last_index_of(s: Seq<char>, c: char)
    ensures
        -1 <= last_index_of(s, c) < s.len(),
        last_index_of(s, c) >= 0 ==> s[last_index_of(s, c)] == c,
        forall|k: int| last_index_of(s, c) < k < s.len() ==> s[k] != c,
    decreases s.len(),
{
    if s.len() > 0 && s.last() != c {
        lemma_last_index_of(s.drop_last(), c);
        assert forall|k: int| last_index_of(s, c) < k < s.len() implies s[k] != c by {
            if k < s.len() - 1 {
                assert(s[k] == s.drop_last()[k]);
            }
        }
    }
}

/// Appending text that holds no `c` leaves the last `c` where it was.
pub proof fn lemma_last_index_of_append(a: Seq<char>, b: Seq<char>, c: char)
    requires
        forall|k: int| 0 <= k < b.len() ==> b[k] != c,
    ensures
        last_index_of(a + b, c) == last_index_of(a, c),
    decreases b.len(),
{
    if b.len() == 0 {
        assert(a + b =~= a);
    } else {
        assert((a + b).drop_last() =~= a + b.drop_last());
        assert((a + b).last() == b[b.len() - 1]);
        lemma_last_index_of_append(a, b.drop_last(), c);
    }
}

/// One more than the index of the last `c` in `s`, or 0 when `s` holds no
/// `c`.
pub fn last_index_of_char(s: &str, c: char) -> (r: usize)
    ensures
        r as int - 1 == last_index_of(s@, c),
        r <= s@.len(),
{
    let n = s.unicode_len();
    let mut j: usize = n;
    assert(s@.take(n as int) =~= s@);
    loop
        invariant
            j <= n,
            n == s@.len(),
            last_index_of(s@, c) == last_index_of(s@.take(j as int), c),
        ensures
            j <= n,
            last_index_of(s@, c) == j - 1,
        decreases j,
    {
        if j == 0 {
            assert(s@.take(0) =~= Seq::<char>::empty());
            break;
        }
        assert(s@.take(j as int).last() == s@[j - 1]);
        if s.get_char(j - 1) == c {
            break;
        }
        assert(s@.take(j as int).drop_last() =~= s@.take(j - 1));
        j = j - 1;
    }
    j
}

/// The extension of a file name (the part after the last `.`, as
/// `Path::extension` gives it): none when the name has no `.` after its
/// first character.
pub open spec fn extension_of(file_name: Seq<char>) -> Option<Seq<char>> {
    let j = last_index_of(file_name, '.');
    if j > 0 {
        Some(file_name.skip(j + 1))
    } else {
        None
    }
}

/// Law: a file name has an extension exactly when it is a non-empty stem, a
/// `.` and a text without `.`; that text is the extension.
pub proof fn lemma_extension_of(stem: Seq<char>, ext: Seq<char>)
    requires
        stem.len() > 0,
        forall|k: int| 0 <= k < ext.len() ==> ext[k] != '.',
    ensures
        extension_of(stem + seq!['.'] + ext) == Some(ext),
{
    let a = stem.push('.');
    assert(stem + seq!['.'] + ext =~= a + ext);
    lemma_last_index_of_append(a, ext, '.');
    assert(a.last() == '.');
    assert((a + ext).skip(stem.len() + 1int) =~= ext);
}

/// Law: the extension of a file name holds no `.`, and the name is a
/// non-empty stem, a `.` and the extension.
pub proof fn lemma_extension_of_shape(file_name: Seq<char>)
    ensures
        extension_of(file_name) matches Some(ext) ==> {
            &&& forall|k: int| 0 <= k < ext.len() ==> ext[k] != '.'
            &&& file_name.len() > ext.len() + 1
            &&& file_name == file_name.take(file_name.len() - ext.len() - 1) + seq!['.'] + ext
        },
{
    lemma_last_index_of(file_name, '.');
    let j = last_index_of(file_name, '.');
    if j > 0 {
        let ext = file_name.skip(j + 1);
        assert forall|k: int| 0 <= k < ext.len() implies ext[k] != '.' by {
            assert(ext[k] == file_name[j + 1 + k]);
        }
        assert(file_name =~= file_name.take(j) + seq!['.'] + ext);
    }
}

} // verus!
