//! Plain text: characters, lines, fields and words.
//!
//! A text is modelled by the sequence of its characters, a list of texts by the sequence of their
//! models (the deep view of a `Vec<String>`).

use vstd::prelude::*;

verus! {

/// `String::push` appends the given character to the end of the string.
pub assume_specification[ String::push ](s: &mut String, c: char)
    ensures
        final(s)@ == old(s)@.push(c),
;

/// The code points of the Unicode property `White_Space`.
pub open spec fn white_space(c: char) -> bool {
    let n = c as int;
    ||| 0x09 <= n <= 0x0D
    ||| n == 0x20
    ||| n == 0x85
    ||| n == 0xA0
    ||| n == 0x1680
    ||| 0x2000 <= n <= 0x200A
    ||| n == 0x2028
    ||| n == 0x2029
    ||| n == 0x202F
    ||| n == 0x205F
    ||| n == 0x3000
}

/// No character of `s` is white space.
pub open spec fn solid(s: Seq<char>) -> bool {
    forall|i: int| 0 <= i < s.len() ==> !white_space(#[trigger] s[i])
}

/// The number of characters of `s` before the first `c`, or the length of `s` where there is none.
pub open spec fn before(s: Seq<char>, c: char) -> nat
    decreases s.len(),
{
    if s.len() == 0 || s[0] == c {
        0
    } else {
        1 + before(s.skip(1), c)
    }
}

/// The fields of `s` between the occurrences of `c`: one more than there are occurrences.
pub open spec fn fields(s: Seq<char>, c: char) -> Seq<Seq<char>>
    decreases s.len(),
{
    let n = before(s, c);
    if n >= s.len() {
        seq![s]
    } else {
        seq![s.take(n as int)] + fields(s.skip((n + 1) as int), c)
    }
}

/// `s` without the carriage return that ends it.
pub open spec fn without_return(s: Seq<char>) -> Seq<char> {
    if s.len() > 0 && s.last() == '\r' {
        s.drop_last()
    } else {
        s
    }
}

/// The lines of `s`: each ends at a line feed, with or without a carriage return before it, and
/// the last one may also end with the text.
pub open spec fn text_lines(s: Seq<char>) -> Seq<Seq<char>>
    decreases s.len(),
{
    let n = before(s, '\n');
    if s.len() == 0 {
        seq![]
    } else if n >= s.len() {
        seq![s]
    } else {
        seq![without_return(s.take(n as int))] + text_lines(s.skip((n + 1) as int))
    }
}

/// The number of characters of `s` before the first white space.
pub open spec fn word_len(s: Seq<char>) -> nat
    decreases s.len(),
{
    if s.len() == 0 || white_space(s[0]) {
        0
    } else {
        1 + word_len(s.skip(1))
    }
}

/// A word ends within its text.
pub proof fn lemma_word_len_bound(s: Seq<char>)
    ensures
        word_len(s) <= s.len(),
    decreases s.len(),
{
    if s.len() != 0 && !white_space(s[0]) {
        lemma_word_len_bound(s.skip(1));
    }
}

/// The words of `s`: its longest runs without white space.
pub open spec fn words(s: Seq<char>) -> Seq<Seq<char>>
    decreases s.len(),
{
    if s.len() == 0 {
        seq![]
    } else if white_space(s[0]) {
        words(s.skip(1))
    } else {
        proof {
            lemma_word_len_bound(s);
        }
        seq![s.take(word_len(s) as int)] + words(s.skip(word_len(s) as int))
    }
}

/// `s` without the white space that it starts with.
pub open spec fn trimmed_start(s: Seq<char>) -> Seq<char>
    decreases s.len(),
{
    if s.len() > 0 && white_space(s[0]) {
        trimmed_start(s.skip(1))
    } else {
        s
    }
}

/// `s` without the white space that it ends with.
pub open spec fn trimmed_end(s: Seq<char>) -> Seq<char>
    decreases s.len(),
{
    if s.len() > 0 && white_space(s.last()) {
        trimmed_end(s.drop_last())
    } else {
        s
    }
}

/// `s` without the white space around it.
pub open spec fn trimmed(s: Seq<char>) -> Seq<char> {
    trimmed_end(trimmed_start(s))
}

/// The texts of `p` with `c` between each two neighbours.
pub open spec fn joined(p: Seq<Seq<char>>, c: char) -> Seq<char>
    decreases p.len(),
{
    if p.len() == 0 {
        seq![]
    } else if p.len() == 1 {
        p[0]
    } else {
        p[0] + seq![c] + joined(p.skip(1), c)
    }
}

/// `part` occurs in `s` at position `at`.
pub open spec fn occurs_at(s: Seq<char>, part: Seq<char>, at: int) -> bool {
    0 <= at <= s.len() - part.len() && s.subrange(at, at + part.len()) == part
}

/// `part` occurs somewhere in `s`.
pub open spec fn occurs_in(s: Seq<char>, part: Seq<char>) -> bool {
    exists|at: int| occurs_at(s, part, at)
}

/// Whether `c` is white space.
pub fn is_whitespace(c: char) -> (r: bool)
    ensures
        r == white_space(c),
{
    let n: u32 = c as u32;
    (0x09 <= n && n <= 0x0D) || n == 0x20 || n == 0x85 || n == 0xA0 || n == 0x1680 || (0x2000 <= n
        && n <= 0x200A) || n == 0x2028 || n == 0x2029 || n == 0x202F || n == 0x205F || n == 0x3000
}

/// The characters of `s`.
pub fn chars_of(s: &str) -> (r: Vec<char>)
    ensures
        r@ == s@,
{
    let mut out: Vec<char> = Vec::new();
    for x in it: s.chars()
        invariant
            it.seq() == s@,
            out@ == s@.take(it.index()),
    {
        out.push(x);
        assert(out@ =~= s@.take(it.index() + 1));
    }
    assert(s@.take(s@.len() as int) =~= s@);
    out
}

/// The text of the characters from `from` up to `to`.
pub fn text_of(chars: &Vec<char>, from: usize, to: usize) -> (r: String)
    requires
        from <= to <= chars@.len(),
    ensures
        r@ == chars@.subrange(from as int, to as int),
{
    let mut out = String::new();
    for i in from..to
        invariant
            to <= chars@.len(),
            from <= i,
            out@ == chars@.subrange(from as int, i as int),
    {
        out.push(chars[i]);
        assert(out@ =~= chars@.subrange(from as int, i + 1));
    }
    out
}

/// The text of the one character `c`.
pub fn char_text(c: char) -> (r: String)
    ensures
        r@ == seq![c],
{
    let mut out = String::new();
    out.push(c);
    assert(out@ =~= seq![c]);
    out
}

/// Appends a text to a list of texts.
pub fn push_text(v: &mut Vec<String>, s: String)
    ensures
        final(v).deep_view() == old(v).deep_view().push(s@),
{
    v.push(s);
    assert(v.deep_view() =~= old(v).deep_view().push(s@));
}

/// A copy of a list of texts.
pub fn copy_texts(v: &Vec<String>) -> (r: Vec<String>)
    ensures
        r.deep_view() == v.deep_view(),
{
    let mut out: Vec<String> = Vec::new();
    for i in 0..v.len()
        invariant
            out.deep_view() == v.deep_view().take(i as int),
    {
        push_text(&mut out, v[i].clone());
        assert(out.deep_view() =~= v.deep_view().take(i + 1));
    }
    assert(v.deep_view().take(v@.len() as int) =~= v.deep_view());
    out
}

/// Whether two texts are equal.
pub fn same_text(a: &str, b: &str) -> (r: bool)
    ensures
        r == (a@ == b@),
{
    a.to_owned() == b.to_owned()
}

/// Whether the list `v` holds the text `s`.
pub fn holds_text(v: &Vec<String>, s: &String) -> (r: bool)
    ensures
        r == v.deep_view().contains(s@),
{
    for i in 0..v.len()
        invariant
            forall|j: int| 0 <= j < i ==> v.deep_view()[j] != s@,
    {
        assert(v.deep_view()[i as int] == v@[i as int]@);
        if v[i] == *s {
            return true;
        }
    }
    false
}

proof fn lemma_before_run(run: Seq<char>, rest: Seq<char>, c: char)
    requires
        !run.contains(c),
    ensures
        before(run + rest, c) == run.len() + before(rest, c),
    decreases run.len(),
{
    if run.len() == 0 {
        assert(run + rest =~= rest);
    } else {
        assert(run[0] != c);
        assert((run + rest).skip(1) =~= run.skip(1) + rest);
        assert forall|i: int| 0 <= i < run.skip(1).len() implies run.skip(1)[i] != c by {
            assert(run[i + 1] != c);
        }
        lemma_before_run(run.skip(1), rest, c);
    }
}

proof fn lemma_before_bound(s: Seq<char>, c: char)
    ensures
        before(s, c) <= s.len(),
        before(s, c) < s.len() ==> s[before(s, c) as int] == c,
        forall|i: int| 0 <= i < before(s, c) ==> s[i] != c,
    decreases s.len(),
{
    if s.len() != 0 && s[0] != c {
        lemma_before_bound(s.skip(1), c);
        assert forall|i: int| 0 <= i < before(s, c) implies s[i] != c by {
            if i > 0 {
                assert(s.skip(1)[i - 1] == s[i]);
            }
        }
    }
}

/// Cutting at a separator that follows a run without one.
proof fn lemma_fields_step(run: Seq<char>, rest: Seq<char>, c: char)
    requires
        !run.contains(c),
    ensures
        fields(run, c) == seq![run],
        fields(run + seq![c] + rest, c) == seq![run] + fields(rest, c),
{
    lemma_before_run(run, Seq::empty(), c);
    assert(run + Seq::<char>::empty() =~= run);
    lemma_before_run(run, seq![c] + rest, c);
    let s = run + seq![c] + rest;
    assert(s =~= run + (seq![c] + rest));
    assert(s.take(run.len() as int) =~= run);
    assert(s.skip((run.len() + 1) as int) =~= rest);
}

/// Ending a line at a line feed that follows a run without one.
pub proof fn lemma_lines_step(run: Seq<char>, rest: Seq<char>)
    requires
        !run.contains('\n'),
    ensures
        run.len() > 0 ==> text_lines(run) == seq![run],
        text_lines(run + seq!['\n'] + rest) == seq![without_return(run)] + text_lines(rest),
{
    lemma_before_run(run, Seq::empty(), '\n');
    assert(run + Seq::<char>::empty() =~= run);
    lemma_before_run(run, seq!['\n'] + rest, '\n');
    let s = run + seq!['\n'] + rest;
    assert(s =~= run + (seq!['\n'] + rest));
    assert(s.take(run.len() as int) =~= run);
    assert(s.skip((run.len() + 1) as int) =~= rest);
}

proof fn lemma_word_len_run(run: Seq<char>, rest: Seq<char>)
    requires
        solid(run),
    ensures
        word_len(run + rest) == run.len() + word_len(rest),
    decreases run.len(),
{
    if run.len() == 0 {
        assert(run + rest =~= rest);
    } else {
        assert((run + rest).skip(1) =~= run.skip(1) + rest);
        lemma_word_len_run(run.skip(1), rest);
    }
}

/// Ending a word at white space that follows a run without any.
pub proof fn lemma_words_step(run: Seq<char>, x: char, rest: Seq<char>)
    requires
        solid(run),
        white_space(x),
    ensures
        run.len() > 0 ==> words(run) == seq![run],
        words(run + seq![x] + rest) == if run.len() > 0 {
            seq![run] + words(rest)
        } else {
            words(rest)
        },
{
    let s = run + seq![x] + rest;
    let tail = seq![x] + rest;
    assert(tail.skip(1) =~= rest);
    if run.len() > 0 {
        let none = Seq::<char>::empty();
        assert(word_len(none) == 0 && word_len(tail) == 0);
        lemma_word_len_run(run, none);
        assert(run + none =~= run);
        assert(run.skip(run.len() as int) =~= none);
        assert(run.take(run.len() as int) =~= run);
        assert(words(none) =~= seq![]);
        assert(words(run) =~= seq![run]);
        lemma_word_len_run(run, tail);
        assert(words(tail) == words(rest));
        assert(s =~= run + tail);
        assert(s.take(run.len() as int) =~= run);
        assert(s.skip(run.len() as int) =~= tail);
    } else {
        assert(s =~= tail);
    }
}

/// The fields of `s` between the occurrences of `c`, as `str::split` gives them.
pub fn split(s: &str, c: char) -> (r: Vec<String>)
    ensures
        r.deep_view() == fields(s@, c),
{
    let mut out: Vec<String> = Vec::new();
    let mut run = String::new();
    proof {
        assert(run@ + s@.skip(0) =~= s@);
        assert(out.deep_view() + fields(s@, c) =~= fields(s@, c));
    }
    for x in it: s.chars()
        invariant
            it.seq() == s@,
            !run@.contains(c),
            fields(s@, c) == out.deep_view() + fields(run@ + s@.skip(it.index()), c),
    {
        let ghost rest = s@.skip(it.index() + 1);
        let ghost r = run@;
        let ghost done = out.deep_view();
        assert(r + s@.skip(it.index()) =~= r + seq![x] + rest);
        if x == c {
            proof {
                lemma_fields_step(r, rest, c);
            }
            push_text(&mut out, run);
            run = String::new();
            assert(run@ + rest =~= rest);
            assert(done + (seq![r] + fields(rest, c)) =~= out.deep_view() + fields(rest, c));
        } else {
            run.push(x);
            assert(run@ + rest =~= r + seq![x] + rest);
        }
    }
    proof {
        lemma_fields_step(run@, Seq::empty(), c);
        assert(run@ + s@.skip(s@.len() as int) =~= run@);
        assert(out.deep_view() + seq![run@] =~= out.deep_view().push(run@));
    }
    push_text(&mut out, run);
    out
}

/// The text `s` without the carriage return that ends it.
fn drop_return(s: &str) -> (r: String)
    ensures
        r@ == without_return(s@),
{
    let chars = chars_of(s);
    let n = chars.len();
    if n > 0 && chars[n - 1] == '\r' {
        assert(s@.subrange(0, n - 1) =~= s@.drop_last());
        text_of(&chars, 0, n - 1)
    } else {
        s.to_owned()
    }
}

/// The lines of `s`, as `str::lines` gives them.
pub fn lines(s: &str) -> (r: Vec<String>)
    ensures
        r.deep_view() == text_lines(s@),
{
    let mut out: Vec<String> = Vec::new();
    let mut run = String::new();
    proof {
        assert(run@ + s@.skip(0) =~= s@);
        assert(out.deep_view() + text_lines(s@) =~= text_lines(s@));
    }
    for x in it: s.chars()
        invariant
            it.seq() == s@,
            !run@.contains('\n'),
            text_lines(s@) == out.deep_view() + text_lines(run@ + s@.skip(it.index())),
    {
        let ghost rest = s@.skip(it.index() + 1);
        let ghost r = run@;
        let ghost done = out.deep_view();
        assert(r + s@.skip(it.index()) =~= r + seq![x] + rest);
        if x == '\n' {
            proof {
                lemma_lines_step(r, rest);
            }
            push_text(&mut out, drop_return(&run));
            run = String::new();
            assert(run@ + rest =~= rest);
            assert(done + (seq![without_return(r)] + text_lines(rest)) =~= out.deep_view()
                + text_lines(rest));
        } else {
            run.push(x);
            assert(run@ + rest =~= r + seq![x] + rest);
        }
    }
    assert(run@ + s@.skip(s@.len() as int) =~= run@);
    if !run.as_str().is_empty() {
        proof {
            lemma_lines_step(run@, Seq::empty());
            assert(out.deep_view() + seq![run@] =~= out.deep_view().push(run@));
        }
        push_text(&mut out, run);
    } else {
        assert(out.deep_view() + text_lines(run@) =~= out.deep_view());
    }
    out
}

/// The words of `s`, as `str::split_whitespace` gives them.
pub fn split_whitespace(s: &str) -> (r: Vec<String>)
    ensures
        r.deep_view() == words(s@),
{
    let mut out: Vec<String> = Vec::new();
    let mut run = String::new();
    proof {
        assert(run@ + s@.skip(0) =~= s@);
        assert(out.deep_view() + words(s@) =~= words(s@));
    }
    for x in it: s.chars()
        invariant
            it.seq() == s@,
            solid(run@),
            words(s@) == out.deep_view() + words(run@ + s@.skip(it.index())),
    {
        let ghost rest = s@.skip(it.index() + 1);
        let ghost r = run@;
        let ghost done = out.deep_view();
        assert(r + s@.skip(it.index()) =~= r + seq![x] + rest);
        if is_whitespace(x) {
            proof {
                lemma_words_step(r, x, rest);
            }
            if !run.as_str().is_empty() {
                push_text(&mut out, run);
                run = String::new();
                assert(done + (seq![r] + words(rest)) =~= out.deep_view() + words(rest));
            }
            assert(run@ + rest =~= rest);
        } else {
            run.push(x);
            assert(run@ + rest =~= r + seq![x] + rest);
        }
    }
    assert(run@ + s@.skip(s@.len() as int) =~= run@);
    if !run.as_str().is_empty() {
        proof {
            lemma_words_step(run@, ' ', Seq::empty());
            assert(out.deep_view() + seq![run@] =~= out.deep_view().push(run@));
        }
        push_text(&mut out, run);
    } else {
        assert(out.deep_view() + words(run@) =~= out.deep_view());
    }
    out
}

/// The text `s` without the white space around it, as `str::trim` gives it.
pub fn trim(s: &str) -> (r: String)
    ensures
        r@ == trimmed(s@),
{
    let chars = chars_of(s);
    let mut from: usize = 0;
    assert(s@.skip(0) =~= s@);
    while from < chars.len() && is_whitespace(chars[from])
        invariant
            chars@ == s@,
            from <= s@.len(),
            trimmed_start(s@) == trimmed_start(s@.skip(from as int)),
        decreases chars.len() - from,
    {
        assert(s@.skip(from as int).skip(1) =~= s@.skip(from + 1));
        from = from + 1;
    }
    let ghost start = s@.skip(from as int);
    let mut to: usize = chars.len();
    assert(start.take(to - from) =~= start);
    while to > from && is_whitespace(chars[to - 1])
        invariant
            chars@ == s@,
            from <= to <= s@.len(),
            start == s@.skip(from as int),
            trimmed_end(start) == trimmed_end(start.take(to - from)),
        decreases to,
    {
        let ghost t = start.take(to - from);
        assert(t.last() == s@[to - 1]);
        assert(t.drop_last() =~= start.take(to - 1 - from));
        to = to - 1;
    }
    proof {
        let t = start.take(to - from);
        assert(t =~= s@.subrange(from as int, to as int));
        if t.len() > 0 {
            assert(t.last() == s@[to - 1]);
        }
    }
    text_of(&chars, from, to)
}

proof fn lemma_joined_last(p: Seq<Seq<char>>, c: char)
    requires
        p.len() > 1,
    ensures
        joined(p, c) == joined(p.drop_last(), c) + seq![c] + p.last(),
    decreases p.len(),
{
    if p.len() == 2 {
        assert(joined(p.skip(1), c) == p.last());
        assert(joined(p.drop_last(), c) == p[0]);
    } else {
        lemma_joined_last(p.skip(1), c);
        assert(p.skip(1).drop_last() =~= p.drop_last().skip(1));
    }
    assert(joined(p, c) =~= joined(p.drop_last(), c) + seq![c] + p.last());
}

/// The texts of `v` with `c` between each two neighbours, as `join` gives them.
pub fn join(v: &Vec<String>, c: char) -> (r: String)
    ensures
        r@ == joined(v.deep_view(), c),
{
    let mut out = String::new();
    let ghost p = v.deep_view();
    for i in 0..v.len()
        invariant
            p == v.deep_view(),
            out@ == joined(p.take(i as int), c),
    {
        let ghost o = out@;
        if i > 0 {
            out.push(c);
        }
        out.append(v[i].as_str());
        proof {
            let q = p.take(i + 1);
            assert(q.drop_last() =~= p.take(i as int));
            assert(q.last() == v@[i as int]@);
            if i > 0 {
                lemma_joined_last(q, c);
                assert(out@ =~= o + seq![c] + q.last());
            } else {
                assert(out@ =~= q[0]);
            }
        }
    }
    assert(p.take(v@.len() as int) =~= p);
    out
}

/// Whether `s` starts with `part`.
pub fn starts_with(s: &str, part: &str) -> (r: bool)
    ensures
        r == part@.is_prefix_of(s@),
{
    let t = chars_of(s);
    let p = chars_of(part);
    if p.len() > t.len() {
        return false;
    }
    for i in 0..p.len()
        invariant
            t@ == s@,
            p@ == part@,
            p@.len() <= t@.len(),
            forall|j: int| 0 <= j < i ==> t@[j] == p@[j],
    {
        if t[i] != p[i] {
            assert(s@.subrange(0, part@.len() as int)[i as int] != part@[i as int]);
            return false;
        }
    }
    assert(part@ =~= s@.subrange(0, part@.len() as int));
    true
}

/// Whether `part` occurs in `s`.
pub fn contains(s: &str, part: &str) -> (r: bool)
    ensures
        r == occurs_in(s@, part@),
{
    let t = chars_of(s);
    let p = chars_of(part);
    if p.len() == 0 {
        assert(s@.subrange(0, 0) =~= part@);
        assert(occurs_at(s@, part@, 0));
        return true;
    }
    let n: usize = t.len();
    if p.len() > n {
        return false;
    }
    let last: usize = n - p.len();
    for at in 0..last + 1
        invariant
            t@ == s@,
            p@ == part@,
            n == t@.len(),
            last + p@.len() == n,
            forall|k: int| 0 <= k < at ==> !occurs_at(s@, part@, k),
    {
        let mut same: bool = true;
        for i in 0..p.len()
            invariant
                at <= last,
                n == t@.len(),
                last + p@.len() == n,
                same == (forall|j: int| 0 <= j < i ==> t@[at + j] == p@[j]),
        {
            if t[at + i] != p[i] {
                same = false;
            }
        }
        let ghost cut = s@.subrange(at as int, at + part@.len());
        if same {
            assert(cut =~= part@);
            assert(occurs_at(s@, part@, at as int));
            return true;
        }
        assert(!occurs_at(s@, part@, at as int)) by {
            if cut == part@ {
                assert forall|j: int| 0 <= j < part@.len() implies t@[at + j] == p@[j] by {
                    assert(cut[j] == part@[j]);
                }
            }
        }
    }
    assert forall|k: int| !occurs_at(s@, part@, k) by {
        if occurs_at(s@, part@, k) {
            assert(0 <= k < last + 1);
        }
    }
    false
}

/// The fields of two texts with a separator between them are the fields of the first, then those
/// of the second.
pub proof fn lemma_fields_concat(a: Seq<char>, b: Seq<char>, c: char)
    ensures
        fields(a + seq![c] + b, c) == fields(a, c) + fields(b, c),
    decreases a.len(),
{
    let n = before(a, c);
    lemma_before_bound(a, c);
    if n >= a.len() {
        lemma_fields_step(a, b, c);
    } else {
        let run = a.take(n as int);
        let rest = a.skip((n + 1) as int);
        assert(a =~= run + seq![c] + rest);
        lemma_fields_step(run, rest, c);
        lemma_fields_concat(rest, b, c);
        let tail = rest + seq![c] + b;
        assert(a + seq![c] + b =~= run + seq![c] + tail);
        lemma_fields_step(run, tail, c);
        assert(seq![run] + (fields(rest, c) + fields(b, c)) =~= (seq![run] + fields(rest, c))
            + fields(b, c));
    }
}

/// A text without `c` is its only field.
pub proof fn lemma_fields_single(s: Seq<char>, c: char)
    requires
        !s.contains(c),
    ensures
        fields(s, c) == seq![s],
{
    lemma_fields_step(s, Seq::empty(), c);
}

/// Joining texts that hold no separator and cutting the result at the separators gives the texts
/// back.
pub proof fn lemma_fields_of_joined(p: Seq<Seq<char>>, c: char)
    requires
        p.len() > 0,
        forall|i: int| 0 <= i < p.len() ==> !(#[trigger] p[i]).contains(c),
    ensures
        fields(joined(p, c), c) == p,
    decreases p.len(),
{
    lemma_fields_single(p[0], c);
    if p.len() == 1 {
        assert(seq![p[0]] =~= p);
    } else {
        lemma_fields_of_joined(p.skip(1), c);
        lemma_fields_concat(p[0], joined(p.skip(1), c), c);
        assert(seq![p[0]] + p.skip(1) =~= p);
    }
}

/// Every word is a non-empty text without white space.
pub proof fn lemma_words_solid(s: Seq<char>)
    ensures
        forall|i: int|
            0 <= i < words(s).len() ==> (#[trigger] words(s)[i]).len() > 0 && solid(words(s)[i]),
    decreases s.len(),
{
    if s.len() == 0 {
        assert(words(s).len() == 0);
    } else {
        if white_space(s[0]) {
            lemma_words_solid(s.skip(1));
            assert(words(s) == words(s.skip(1)));
        } else {
            let n = word_len(s);
            lemma_word_len_bound(s);
            lemma_word_prefix_solid(s);
            lemma_words_solid(s.skip(n as int));
            assert forall|i: int| 0 <= i < words(s).len() implies (#[trigger] words(s)[i]).len() > 0
                && solid(words(s)[i]) by {
                if i > 0 {
                    assert(words(s)[i] == words(s.skip(n as int))[i - 1]);
                } else {
                    assert(words(s)[i] == s.take(n as int));
                }
            }
        }
    }
}

proof fn lemma_word_prefix_solid(s: Seq<char>)
    ensures
        word_len(s) <= s.len(),
        solid(s.take(word_len(s) as int)),
    decreases s.len(),
{
    if s.len() != 0 && !white_space(s[0]) {
        lemma_word_prefix_solid(s.skip(1));
        let t = s.take(word_len(s) as int);
        assert forall|i: int| 0 <= i < t.len() implies !white_space(#[trigger] t[i]) by {
            if i > 0 {
                assert(t[i] == s.skip(1).take(word_len(s.skip(1)) as int)[i - 1]);
            }
        }
    }
}

proof fn lemma_trimmed_start_run(run: Seq<char>, s: Seq<char>)
    requires
        forall|i: int| 0 <= i < run.len() ==> white_space(#[trigger] run[i]),
    ensures
        trimmed_start(run + s) == trimmed_start(s),
    decreases run.len(),
{
    if run.len() > 0 {
        assert((run + s)[0] == run[0]);
        assert((run + s).skip(1) =~= run.skip(1) + s);
        assert forall|i: int| 0 <= i < run.skip(1).len() implies white_space(
            #[trigger] run.skip(1)[i],
        ) by {
            assert(run.skip(1)[i] == run[i + 1]);
        }
        lemma_trimmed_start_run(run.skip(1), s);
    } else {
        assert(run + s =~= s);
    }
}

proof fn lemma_trimmed_end_run(s: Seq<char>, run: Seq<char>)
    requires
        forall|i: int| 0 <= i < run.len() ==> white_space(#[trigger] run[i]),
    ensures
        trimmed_end(s + run) == trimmed_end(s),
    decreases run.len(),
{
    if run.len() > 0 {
        assert((s + run).last() == run[run.len() - 1]);
        assert((s + run).drop_last() =~= s + run.drop_last());
        lemma_trimmed_end_run(s, run.drop_last());
    } else {
        assert(s + run =~= s);
    }
}

proof fn lemma_trimmed_start_keeps(s: Seq<char>, run: Seq<char>)
    requires
        forall|i: int| 0 <= i < run.len() ==> white_space(#[trigger] run[i]),
    ensures
        trimmed_end(trimmed_start(s + run)) == trimmed_end(trimmed_start(s)),
    decreases s.len(),
{
    if s.len() > 0 && white_space(s[0]) {
        assert((s + run)[0] == s[0]);
        assert((s + run).skip(1) =~= s.skip(1) + run);
        lemma_trimmed_start_keeps(s.skip(1), run);
    } else if s.len() > 0 {
        assert((s + run)[0] == s[0]);
        lemma_trimmed_end_run(s, run);
    } else {
        assert(s + run =~= run + s);
        lemma_trimmed_start_run(run, s);
    }
}

/// White space around a text goes when the text is trimmed.
pub proof fn lemma_trimmed_around(before: Seq<char>, s: Seq<char>, after: Seq<char>)
    requires
        forall|i: int| 0 <= i < before.len() ==> white_space(#[trigger] before[i]),
        forall|i: int| 0 <= i < after.len() ==> white_space(#[trigger] after[i]),
    ensures
        trimmed(before + s + after) == trimmed(s),
{
    assert(before + s + after =~= before + (s + after));
    lemma_trimmed_start_run(before, s + after);
    lemma_trimmed_start_keeps(s, after);
}

} // verus!
