//! Character-level text handling: whitespace, decimal numerals, line splitting
//! and joining, all over `Seq<char>` models of strings.
use vstd::prelude::*;

verus! {

/// The characters of `s`, in order.
pub fn chars_of(s: &str) -> (res: Vec<char>)
    ensures
        res@ == s@,
{
    let mut res: Vec<char> = Vec::new();
    for c in it: s.chars()
        invariant
            res@ == it.seq().take(it.index() as int),
            it.seq() == s@,
    {
        res.push(c);
    }
    res
}

/// std's `String::from_iter` over borrowed chars: the string made of exactly
/// the given characters, in order.
#[verifier::external_body]
pub(crate) fn string_from_chars(cs: &Vec<char>) -> (s: String)
    ensures
        s@ == cs@,
{
    String::from_iter(cs.iter())
}

/// Appends the characters of `s` to `out`.
pub fn push_str(out: &mut Vec<char>, s: &str)
    ensures
        final(out)@ == old(out)@ + s@,
{
    let cs = chars_of(s);
    push_chars(out, &cs);
}

/// Appends the characters of `cs` to `out`.
pub fn push_chars(out: &mut Vec<char>, cs: &Vec<char>)
    ensures
        final(out)@ == old(out)@ + cs@,
{
    let ghost start = out@;
    let n = cs.len();
    for i in 0..n
        invariant
            n == cs@.len(),
            out@ == start + cs@.take(i as int),
    {
        out.push(cs[i]);
        assert(cs@.take(i + 1) =~= cs@.take(i as int).push(cs@[i as int]));
    }
    assert(cs@.take(n as int) =~= cs@);
}

/// The Unicode `White_Space` property, the one `char::is_whitespace` tests.
pub open spec fn is_space(c: char) -> bool {
    let n = c as u32;
    ||| 0x09 <= n <= 0x0D
    ||| n == 0x20
    ||| n == 0x85
    ||| n == 0xA0
    ||| n == 0x1680
    ||| 0x2000 <= n <= 0x200A
    ||| n == 0x2028
    ||| n == 0x2029
    ||| n == 0x202F
    ||| n == 0x205F
    ||| n == 0x3000
}

/// Whether `c` is a Unicode whitespace character.
pub fn is_space_char(c: char) -> (b: bool)
    ensures
        b == is_space(c),
{
    let n = c as u32;
    (0x09 <= n && n <= 0x0D) || n == 0x20 || n == 0x85 || n == 0xA0 || n == 0x1680 || (0x2000 <= n
        && n <= 0x200A) || n == 0x2028 || n == 0x2029 || n == 0x202F || n == 0x205F || n == 0x3000
}

/// A text is blank when it holds whitespace only: trimming it leaves nothing.
pub open spec fn is_blank(s: Seq<char>) -> bool {
    forall|i: int| 0 <= i < s.len() ==> is_space(#[trigger] s[i])
}

/// Whether `cs` holds whitespace only.
pub fn all_space(cs: &Vec<char>) -> (b: bool)
    ensures
        b == is_blank(cs@),
{
    let n = cs.len();
    for i in 0..n
        invariant
            n == cs@.len(),
            forall|j: int| 0 <= j < i ==> is_space(#[trigger] cs@[j]),
    {
        if !is_space_char(cs[i]) {
            return false;
        }
    }
    true
}

/// The decimal digit character for `d` (below ten).
pub open spec fn digit_char(d: nat) -> char {
    (48 + d) as char
}

/// The decimal numeral of `n`, most significant digit first, without leading zeros.
pub open spec fn decimal(n: nat) -> Seq<char>
    decreases n,
{
    if n < 10 {
        seq![digit_char(n)]
    } else {
        decimal(n / 10).push(digit_char(n % 10))
    }
}

/// Appends the decimal numeral of `n` to `out`.
pub fn push_decimal(out: &mut Vec<char>, n: usize)
    ensures
        final(out)@ == old(out)@ + decimal(n as nat),
    decreases n,
{
    if n >= 10 {
        push_decimal(out, n / 10);
    }
    let d: u8 = (n % 10) as u8;
    let c: char = (48u8 + d) as char;
    assert(c == digit_char((n % 10) as nat));
    out.push(c);
    assert(decimal(n as nat) == if n < 10 {
        seq![digit_char(n as nat)]
    } else {
        decimal((n / 10) as nat).push(digit_char((n % 10) as nat))
    });
}

/// Two numbers with the same numeral are equal.
pub proof fn lemma_decimal_injective(a: nat, b: nat)
    requires
        decimal(a) == decimal(b),
    ensures
        a == b,
    decreases a,
{
    if a >= 10 {
        assert(decimal(a).len() >= 2) by { lemma_decimal_nonempty(a / 10); }
    }
    if b >= 10 {
        assert(decimal(b).len() >= 2) by { lemma_decimal_nonempty(b / 10); }
    }
    if a >= 10 && b >= 10 {
        assert(decimal(a / 10) =~= decimal(a).drop_last());
        assert(decimal(b / 10) =~= decimal(b).drop_last());
        lemma_decimal_injective(a / 10, b / 10);
        assert(digit_char(a % 10) == decimal(a).last());
        assert(digit_char(b % 10) == decimal(b).last());
        assert(digit_char(a % 10) as u32 == 48 + a % 10);
        assert(digit_char(b % 10) as u32 == 48 + b % 10);
        assert(a == 10 * (a / 10) + a % 10);
        assert(b == 10 * (b / 10) + b % 10);
    } else if a < 10 && b < 10 {
        assert(decimal(a)[0] == digit_char(a));
        assert(decimal(b)[0] == digit_char(b));
        assert(digit_char(a) as u32 == 48 + a);
        assert(digit_char(b) as u32 == 48 + b);
    }
}

/// A numeral has at least one digit.
pub proof fn lemma_decimal_nonempty(n: nat)
    ensures
        decimal(n).len() >= 1,
    decreases n,
{
    if n >= 10 {
        lemma_decimal_nonempty(n / 10);
    }
}

/// The views of a sequence of character vectors.
pub open spec fn views(v: Seq<Vec<char>>) -> Seq<Seq<char>> {
    v.map_values(|l: Vec<char>| l@)
}

/// A line with one trailing carriage return removed, if it has one.
pub open spec fn strip_cr(line: Seq<char>) -> Seq<char> {
    if line.len() > 0 && line.last() == '\r' {
        line.drop_last()
    } else {
        line
    }
}

/// Reading `s` from the left: the lines completed by a `'\n'` (each without its
/// line ending, `"\n"` or `"\r\n"`), and the characters read since the last `'\n'`.
pub open spec fn line_scan(s: Seq<char>) -> (Seq<Seq<char>>, Seq<char>)
    decreases s.len(),
{
    if s.len() == 0 {
        (seq![], seq![])
    } else {
        let (done, cur) = line_scan(s.drop_last());
        if s.last() == '\n' {
            (done.push(strip_cr(cur)), seq![])
        } else {
            (done, cur.push(s.last()))
        }
    }
}

/// The lines of a text, as `str::lines` yields them: split at `"\n"` or
/// `"\r\n"`, line endings dropped, and no empty line after a final line ending.
pub open spec fn lines_of(s: Seq<char>) -> Seq<Seq<char>> {
    let (done, cur) = line_scan(s);
    if cur.len() == 0 {
        done
    } else {
        done.push(cur)
    }
}

/// Splits a text into its lines.
pub fn split_lines(s: &Vec<char>) -> (lines: Vec<Vec<char>>)
    ensures
        views(lines@) == lines_of(s@),
{
    let mut lines: Vec<Vec<char>> = Vec::new();
    let mut cur: Vec<char> = Vec::new();
    let n = s.len();
    for i in 0..n
        invariant
            n == s@.len(),
            (views(lines@), cur@) == line_scan(s@.take(i as int)),
    {
        let c = s[i];
        assert(s@.take(i + 1).drop_last() =~= s@.take(i as int));
        if c == '\n' {
            let len = cur.len();
            if len > 0 && cur[len - 1] == '\r' {
                cur.pop();
            }
            let line = cur;
            cur = Vec::new();
            let ghost prev = lines@;
            lines.push(line);
            assert(views(lines@) =~= views(prev).push(line@));
        } else {
            cur.push(c);
        }
    }
    assert(s@.take(n as int) =~= s@);
    if cur.len() > 0 {
        let ghost prev = lines@;
        lines.push(cur);
        assert(views(lines@) =~= views(prev).push(cur@));
    }
    lines
}

/// The parts joined with `sep` between each two neighbours.
pub open spec fn join(parts: Seq<Seq<char>>, sep: Seq<char>) -> Seq<char>
    decreases parts.len(),
{
    if parts.len() == 0 {
        seq![]
    } else if parts.len() == 1 {
        parts[0]
    } else {
        join(parts.drop_last(), sep) + sep + parts.last()
    }
}

/// Lines `from..to` of `lines`, joined with `'\n'`.
pub fn join_lines(lines: &Vec<Vec<char>>, from: usize, to: usize) -> (res: Vec<char>)
    requires
        from <= to <= lines@.len(),
    ensures
        res@ == join(views(lines@).subrange(from as int, to as int), seq!['\n']),
{
    let mut res: Vec<char> = Vec::new();
    let mut i = from;
    while i < to
        invariant
            from <= i <= to <= lines@.len(),
            res@ == join(views(lines@).subrange(from as int, i as int), seq!['\n']),
        decreases to - i,
    {
        let ghost parts = views(lines@).subrange(from as int, i + 1);
        assert(parts.drop_last() =~= views(lines@).subrange(from as int, i as int));
        if i > from {
            res.push('\n');
        }
        push_chars(&mut res, &lines[i]);
        i = i + 1;
    }
    res
}

/// A part holding a non-space character makes the joined text non-blank.
pub proof fn lemma_join_blank(parts: Seq<Seq<char>>, sep: Seq<char>, j: int)
    requires
        0 <= j < parts.len(),
        is_blank(join(parts, sep)),
    ensures
        is_blank(parts[j]),
    decreases parts.len(),
{
    let whole = join(parts, sep);
    if parts.len() == 1 {
    } else {
        let front = join(parts.drop_last(), sep);
        assert(whole == front + sep + parts.last());
        if j == parts.len() - 1 {
            assert forall|k: int| 0 <= k < parts[j].len() implies is_space(#[trigger] parts[j][k]) by {
                assert(whole[front.len() + sep.len() + k] == parts[j][k]);
            }
        } else {
            assert forall|k: int| 0 <= k < front.len() implies is_space(#[trigger] front[k]) by {
                assert(whole[k] == front[k]);
            }
            lemma_join_blank(parts.drop_last(), sep, j);
        }
    }
}

/// Reading `s` from the left: the words completed by a whitespace character, and
/// the non-whitespace characters read since the last whitespace.
pub open spec fn word_scan(s: Seq<char>) -> (Seq<Seq<char>>, Seq<char>)
    decreases s.len(),
{
    if s.len() == 0 {
        (seq![], seq![])
    } else {
        let (done, cur) = word_scan(s.drop_last());
        if is_space(s.last()) {
            if cur.len() == 0 {
                (done, cur)
            } else {
                (done.push(cur), seq![])
            }
        } else {
            (done, cur.push(s.last()))
        }
    }
}

/// The words of a text, as `str::split_whitespace` yields them: the maximal runs
/// of non-whitespace characters, in order.
pub open spec fn words_of(s: Seq<char>) -> Seq<Seq<char>> {
    let (done, cur) = word_scan(s);
    if cur.len() == 0 {
        done
    } else {
        done.push(cur)
    }
}

/// Splits a text into its whitespace-separated words.
pub fn split_words(s: &Vec<char>) -> (words: Vec<Vec<char>>)
    ensures
        views(words@) == words_of(s@),
{
    let mut words: Vec<Vec<char>> = Vec::new();
    let mut cur: Vec<char> = Vec::new();
    let n = s.len();
    for i in 0..n
        invariant
            n == s@.len(),
            (views(words@), cur@) == word_scan(s@.take(i as int)),
    {
        let c = s[i];
        assert(s@.take(i + 1).drop_last() =~= s@.take(i as int));
        if is_space_char(c) {
            if cur.len() > 0 {
                let word = cur;
                cur = Vec::new();
                let ghost prev = words@;
                words.push(word);
                assert(views(words@) =~= views(prev).push(word@));
            }
        } else {
            cur.push(c);
        }
    }
    assert(s@.take(n as int) =~= s@);
    if cur.len() > 0 {
        let ghost prev = words@;
        words.push(cur);
        assert(views(words@) =~= views(prev).push(cur@));
    }
    words
}

/// The parts, each but the first preceded by the separator.
pub open spec fn separated(parts: Seq<Seq<char>>, sep: Seq<char>) -> Seq<Seq<char>> {
    Seq::new(parts.len(), |k: int| if k == 0 { parts[k] } else { sep + parts[k] })
}

/// Joining is concatenating every part, in order, each but the first preceded by
/// the separator: nothing is left out, repeated or reordered.
pub proof fn lemma_join_flatten(parts: Seq<Seq<char>>, sep: Seq<char>)
    ensures
        join(parts, sep) == Seq::new(
            parts.len(),
            |k: int| if k == 0 { parts[k] } else { sep + parts[k] },
        ).flatten(),
    decreases parts.len(),
{
    let all = Seq::new(parts.len(), |k: int| if k == 0 { parts[k] } else { sep + parts[k] });
    all.lemma_flatten_and_flatten_alt_are_equivalent();
    if parts.len() == 0 {
        assert(all.flatten_alt() =~= Seq::<char>::empty());
    } else if parts.len() == 1 {
        assert(all.drop_last().flatten_alt() =~= Seq::<char>::empty());
        assert(all.flatten_alt() =~= parts[0]);
    } else {
        let front = parts.drop_last();
        lemma_join_flatten(front, sep);
        let fall = Seq::new(front.len(), |k: int| if k == 0 { front[k] } else { sep + front[k] });
        fall.lemma_flatten_and_flatten_alt_are_equivalent();
        assert(all.drop_last() =~= fall);
        assert(all.last() == sep + parts.last());
        assert(all.flatten_alt() == all.drop_last().flatten_alt() + all.last());
        assert(join(parts, sep) =~= all.flatten_alt());
    }
}

/// The number a string of decimal digits stands for, read from the left.
pub open spec fn digits_value(ds: Seq<char>) -> int
    decreases ds.len(),
{
    if ds.len() == 0 {
        0
    } else {
        digits_value(ds.drop_last()) * 10 + (ds.last() as int - 48)
    }
}

/// The numeral of `n` is the usual base-ten writing of `n`: it is made of the
/// digits `'0'..='9'`, starts with a non-zero digit unless `n` is zero, and read
/// from the left (each digit multiplying what was read by ten and adding its
/// value, see [`digits_value`]) it gives back `n`.
pub proof fn lemma_decimal_digits(n: nat)
    ensures
        forall|i: int|
            0 <= i < decimal(n).len() ==> '0' <= #[trigger] decimal(n)[i] && decimal(n)[i] <= '9',
        n >= 1 ==> decimal(n)[0] != '0',
        digits_value(decimal(n)) == n,
    decreases n,
{
    assert(digit_char(n % 10) as u32 == 48 + n % 10);
    if n < 10 {
        let d = decimal(n);
        assert(d == seq![digit_char(n)]);
        assert(d.drop_last() =~= Seq::<char>::empty());
        assert(digit_char(n) as u32 == 48 + n);
        assert(d.last() as int == 48 + n);
        assert(digits_value(d) == digits_value(d.drop_last()) * 10 + (d.last() as int - 48));
    } else {
        lemma_decimal_digits(n / 10);
        lemma_decimal_nonempty(n / 10);
        let d = decimal(n);
        assert(d.drop_last() =~= decimal(n / 10));
        assert(d[0] == decimal(n / 10)[0]);
        assert(forall|i: int| 0 <= i < d.len() - 1 ==> d[i] == decimal(n / 10)[i]);
        assert(d.last() == digit_char(n % 10));
        assert(d.last() as int == 48 + n % 10);
        assert(n == 10 * (n / 10) + n % 10);
        assert(digits_value(d) == digits_value(decimal(n / 10)) * 10 + (d.last() as int - 48));
    }
}

/// Splitting a text without carriage returns into lines and joining them again
/// with `'\n'` gives back the text, up to one final line break; no line holds a
/// line break.
pub proof fn lemma_lines_rejoin(s: Seq<char>)
    requires
        !s.contains('\r'),
    ensures
        join(lines_of(s), seq!['\n']) + (if s.len() > 0 && s.last() == '\n' {
            seq!['\n']
        } else {
            Seq::<char>::empty()
        }) == s,
        forall|k: int| 0 <= k < lines_of(s).len() ==> !(#[trigger] lines_of(s)[k]).contains('\n'),
{
    lemma_line_scan(s);
    let (done, cur) = line_scan(s);
    if cur.len() == 0 {
        if done.len() == 0 {
            assert(join(lines_of(s), seq!['\n']) =~= Seq::<char>::empty());
        } else {
            assert(s.len() > 0 && s.last() == '\n');
        }
    } else {
        let ls = done.push(cur);
        assert(ls.drop_last() =~= done);
        if done.len() > 0 {
            assert(join(ls, seq!['\n']) == join(done, seq!['\n']) + seq!['\n'] + cur);
        }
        assert(s.last() == cur.last());
        assert forall|k: int| 0 <= k < ls.len() implies !(#[trigger] ls[k]).contains('\n') by {
            if k < done.len() {
                assert(ls[k] == done[k]);
            }
        }
    }
}

proof fn lemma_line_scan(t: Seq<char>)
    requires
        !t.contains('\r'),
    ensures
        ({
            let (done, cur) = line_scan(t);
            &&& !cur.contains('\n')
            &&& forall|k: int| 0 <= k < done.len() ==> !(#[trigger] done[k]).contains('\n')
            &&& if done.len() == 0 {
                t == cur
            } else {
                t == join(done, seq!['\n']) + seq!['\n'] + cur
            }
        }),
    decreases t.len(),
{
    if t.len() > 0 {
        let p = t.drop_last();
        assert forall|i: int| 0 <= i < p.len() implies p[i] != '\r' by {
            assert(p[i] == t[i]);
        }
        lemma_line_scan(p);
        let (done, cur) = line_scan(p);
        let c = t.last();
        assert(c != '\r') by {
            assert(t[t.len() - 1] == c);
        }
        assert(t =~= p.push(c));
        if c == '\n' {
            assert(strip_cr(cur) == cur) by {
                if cur.len() > 0 {
                    if done.len() == 0 {
                        assert(cur.last() == p[p.len() - 1]);
                    } else {
                        assert(cur.last() == p[p.len() - 1]);
                    }
                }
            }
            let nd = done.push(cur);
            assert(nd.drop_last() =~= done);
            assert forall|k: int| 0 <= k < nd.len() implies !(#[trigger] nd[k]).contains('\n') by {
                if k < done.len() {
                    assert(nd[k] == done[k]);
                }
            }
            if done.len() == 0 {
                assert(join(nd, seq!['\n']) == cur);
                assert(t =~= join(nd, seq!['\n']) + seq!['\n'] + Seq::<char>::empty());
            } else {
                assert(join(nd, seq!['\n']) == join(done, seq!['\n']) + seq!['\n'] + cur);
                assert(t =~= join(nd, seq!['\n']) + seq!['\n'] + Seq::<char>::empty());
            }
            assert(!Seq::<char>::empty().contains('\n'));
        } else {
            let nc = cur.push(c);
            assert forall|i: int| 0 <= i < nc.len() implies nc[i] != '\n' by {
                if i < cur.len() {
                    assert(nc[i] == cur[i]);
                }
            }
            if done.len() == 0 {
                assert(t =~= nc);
            } else {
                assert(t =~= join(done, seq!['\n']) + seq!['\n'] + nc);
            }
        }
    }
}

/// A text in normal form: it neither starts nor ends with whitespace, its only
/// whitespace is the plain space, and no two spaces are adjacent.
pub open spec fn single_spaced(s: Seq<char>) -> bool {
    &&& forall|i: int| 0 <= i < s.len() && is_space(#[trigger] s[i]) ==> s[i] == ' '
    &&& forall|i: int| 0 <= i < s.len() && #[trigger] is_space(s[i]) ==> 0 < i && !is_space(s[i - 1])
    &&& s.len() > 0 ==> !is_space(s.last())
}

proof fn lemma_word_scan(t: Seq<char>)
    ensures
        ({
            let (done, cur) = word_scan(t);
            &&& forall|k: int|
                0 <= k < done.len() ==> (#[trigger] done[k]).len() > 0 && forall|i: int|
                    0 <= i < done[k].len() ==> !is_space(#[trigger] done[k][i])
            &&& forall|i: int| 0 <= i < cur.len() ==> !is_space(#[trigger] cur[i])
            &&& done.flatten() + cur == t.filter(|c: char| !is_space(c))
        }),
        ({
            let (done, cur) = word_scan(t);
            (forall|i: int| 0 <= i < t.len() && is_space(#[trigger] t[i]) ==> t[i] == ' ')
                && (forall|i: int|
                0 <= i < t.len() && #[trigger] is_space(t[i]) ==> 0 < i && !is_space(t[i - 1]))
                ==> if t.len() == 0 {
                done.len() == 0 && cur.len() == 0
            } else if is_space(t.last()) {
                &&& cur.len() == 0
                &&& done.len() > 0
                &&& t == join(done, seq![' ']) + seq![' ']
            } else {
                &&& cur.len() > 0
                &&& t == if done.len() == 0 {
                    cur
                } else {
                    join(done, seq![' ']) + seq![' '] + cur
                }
            }
        }),
    decreases t.len(),
{
    reveal_with_fuel(Seq::filter, 2);
    if t.len() > 0 {
        let p = t.drop_last();
        lemma_word_scan(p);
        let (done, cur) = word_scan(p);
        let c = t.last();
        assert(t =~= p.push(c));
        assert(t.filter(|c: char| !is_space(c)) == if !is_space(c) {
            p.filter(|c: char| !is_space(c)).push(c)
        } else {
            p.filter(|c: char| !is_space(c))
        });
        if is_space(c) {
            if cur.len() > 0 {
                let nd = done.push(cur);
                done.lemma_flatten_push(cur);
                assert(nd.drop_last() =~= done);
                assert(nd.flatten() + Seq::<char>::empty() =~= done.flatten() + cur);
                assert forall|k: int| 0 <= k < nd.len() implies (#[trigger] nd[k]).len() > 0
                    && forall|i: int| 0 <= i < nd[k].len() ==> !is_space(#[trigger] nd[k][i]) by {
                    if k < done.len() {
                        assert(nd[k] == done[k]);
                    }
                }
                if (forall|i: int| 0 <= i < t.len() && is_space(#[trigger] t[i]) ==> t[i] == ' ')
                    && (forall|i: int|
                    0 <= i < t.len() && #[trigger] is_space(t[i]) ==> 0 < i && !is_space(t[i - 1])) {
                    assert forall|i: int| 0 <= i < p.len() && is_space(#[trigger] p[i]) implies p[i]
                        == ' ' by {
                        assert(t[i] == p[i]);
                    }
                    assert forall|i: int| 0 <= i < p.len() && #[trigger] is_space(p[i]) implies 0 < i
                        && !is_space(p[i - 1]) by {
                        assert(t[i] == p[i]);
                        assert(t[i - 1] == p[i - 1]);
                    }
                    assert(is_space(t[t.len() - 1]));
                    assert(t[t.len() - 1] == ' ');
                    if done.len() > 0 {
                        assert(join(nd, seq![' ']) == join(done, seq![' ']) + seq![' '] + cur);
                    }
                    assert(t =~= join(nd, seq![' ']) + seq![' ']);
                }
            } else {
                assert(done.flatten() + cur =~= done.flatten());
                if (forall|i: int| 0 <= i < t.len() && is_space(#[trigger] t[i]) ==> t[i] == ' ')
                    && (forall|i: int|
                    0 <= i < t.len() && #[trigger] is_space(t[i]) ==> 0 < i && !is_space(t[i - 1])) {
                    assert(is_space(t[t.len() - 1]));
                    assert(t.len() >= 2 && !is_space(t[t.len() - 2]));
                    assert(p.last() == t[t.len() - 2]);
                    assert forall|i: int| 0 <= i < p.len() && is_space(#[trigger] p[i]) implies p[i]
                        == ' ' by {
                        assert(t[i] == p[i]);
                    }
                    assert forall|i: int| 0 <= i < p.len() && #[trigger] is_space(p[i]) implies 0 < i
                        && !is_space(p[i - 1]) by {
                        assert(t[i] == p[i]);
                        assert(t[i - 1] == p[i - 1]);
                    }
                    assert(false);
                }
            }
        } else {
            let nc = cur.push(c);
            assert(done.flatten() + nc =~= (done.flatten() + cur).push(c));
            assert forall|i: int| 0 <= i < nc.len() implies !is_space(#[trigger] nc[i]) by {
                if i < cur.len() {
                    assert(nc[i] == cur[i]);
                }
            }
            if (forall|i: int| 0 <= i < t.len() && is_space(#[trigger] t[i]) ==> t[i] == ' ') && (
            forall|i: int| 0 <= i < t.len() && #[trigger] is_space(t[i]) ==> 0 < i && !is_space(t[i - 1])) {
                assert forall|i: int| 0 <= i < p.len() && is_space(#[trigger] p[i]) implies p[i] == ' ' by {
                    assert(t[i] == p[i]);
                }
                assert forall|i: int| 0 <= i < p.len() && #[trigger] is_space(p[i]) implies 0 < i
                    && !is_space(p[i - 1]) by {
                    assert(t[i] == p[i]);
                    assert(t[i - 1] == p[i - 1]);
                }
                if p.len() == 0 {
                    assert(t =~= nc);
                } else if is_space(p.last()) {
                    assert(t =~= join(done, seq![' ']) + seq![' '] + nc);
                } else if done.len() == 0 {
                    assert(t =~= nc);
                } else {
                    assert(t =~= join(done, seq![' ']) + seq![' '] + nc);
                }
            }
        }
    }
}

/// The words of a text are non-empty, hold no whitespace, and together hold
/// every non-whitespace character of the text, in order; a text in normal form
/// is given back by joining its words with single spaces.
pub proof fn lemma_words(s: Seq<char>)
    ensures
        forall|k: int|
            0 <= k < words_of(s).len() ==> (#[trigger] words_of(s)[k]).len() > 0 && forall|i: int|
                0 <= i < words_of(s)[k].len() ==> !is_space(#[trigger] words_of(s)[k][i]),
        words_of(s).flatten() == s.filter(|c: char| !is_space(c)),
        single_spaced(s) ==> join(words_of(s), seq![' ']) == s,
{
    lemma_word_scan(s);
    let (done, cur) = word_scan(s);
    if cur.len() == 0 {
        assert(done.flatten() + cur =~= done.flatten());
        if single_spaced(s) {
            if s.len() > 0 {
                assert(!is_space(s.last()));
            }
        }
    } else {
        let ws = done.push(cur);
        done.lemma_flatten_push(cur);
        assert(ws.drop_last() =~= done);
        assert forall|k: int| 0 <= k < ws.len() implies (#[trigger] ws[k]).len() > 0 && forall|i: int|
            0 <= i < ws[k].len() ==> !is_space(#[trigger] ws[k][i]) by {
            if k < done.len() {
                assert(ws[k] == done[k]);
            }
        }
        if single_spaced(s) {
            if done.len() > 0 {
                assert(join(ws, seq![' ']) == join(done, seq![' ']) + seq![' '] + cur);
            }
        }
    }
}

} // verus!
