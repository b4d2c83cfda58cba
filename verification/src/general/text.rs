//! Text as sequences of characters: splitting, trimming, decimal numbers.
use vstd::prelude::*;
use crate::general::grid::grid_view;

verus! {

/// `String::push` appends one character.
pub assume_specification[ String::push ](s: &mut String, c: char)
    ensures
        final(s)@ == old(s)@.push(c),
;

/// The characters of `s`, in order.
pub fn chars_of(s: &str) -> (v: Vec<char>)
    ensures
        v@ == s@,
{
    let mut v: Vec<char> = Vec::new();
    for c in it: s.chars()
        invariant
            v@ == it.seq().take(it.index() as int),
    {
        v.push(c);
    }
    v
}

/// The string made of the characters `v[from..to]`.
pub fn string_of(v: &Vec<char>, from: usize, to: usize) -> (s: String)
    requires
        from <= to <= v.len(),
    ensures
        s@ == v@.subrange(from as int, to as int),
{
    let mut s = String::new();
    let mut i: usize = from;
    while i < to
        invariant
            from <= i <= to <= v.len(),
            s@ == v@.subrange(from as int, i as int),
        decreases to - i,
    {
        s.push(v[i]);
        i += 1;
    }
    s
}

/// Unicode's `White_Space` property, which `char::is_whitespace` tests.
pub open spec fn is_space(c: char) -> bool {
    let n = c as u32;
    ||| 0x09 <= n <= 0x0d
    ||| n == 0x20
    ||| n == 0x85
    ||| n == 0xa0
    ||| n == 0x1680
    ||| 0x2000 <= n <= 0x200a
    ||| n == 0x2028
    ||| n == 0x2029
    ||| n == 0x202f
    ||| n == 0x205f
    ||| n == 0x3000
}

pub fn is_whitespace(c: char) -> (r: bool)
    ensures
        r == is_space(c),
{
    let n: u32 = c as u32;
    (0x09 <= n && n <= 0x0d) || n == 0x20 || n == 0x85 || n == 0xa0 || n == 0x1680 || (0x2000 <= n
        && n <= 0x200a) || n == 0x2028 || n == 0x2029 || n == 0x202f || n == 0x205f || n == 0x3000
}

/// The character of the decimal digit `d`.
pub open spec fn digit_char(d: nat) -> char
    recommends
        d < 10,
{
    (('0' as u32 + d) as u8) as char
}

pub open spec fn is_digit(c: char) -> bool {
    '0' <= c <= '9'
}

pub open spec fn digit_value(c: char) -> nat
    recommends
        is_digit(c),
{
    (c as u32 - '0' as u32) as nat
}

/// `n` written in decimal, without leading zeros.
pub open spec fn decimal(n: nat) -> Seq<char>
    decreases n,
{
    if n < 10 {
        seq![digit_char(n)]
    } else {
        decimal(n / 10).push(digit_char(n % 10))
    }
}

/// Appends `n` in decimal to `out`.
pub fn push_decimal(out: &mut Vec<char>, n: usize)
    ensures
        final(out)@ == old(out)@ + decimal(n as nat),
    decreases n,
{
    if n >= 10 {
        push_decimal(out, n / 10);
    }
    let d: u8 = (n % 10) as u8;
    out.push((48u8 + d) as char);
    assert(final(out)@ =~= old(out)@ + decimal(n as nat));
}

/// The value of a string of decimal digits, as far as it fits a `usize`:
/// `None` where a character is no digit or the value exceeds `usize::MAX`.
/// The empty string has the value 0.
pub open spec fn digits_value(s: Seq<char>) -> Option<nat>
    decreases s.len(),
{
    if s.len() == 0 {
        Some(0)
    } else {
        match digits_value(s.drop_last()) {
            Some(v) => if is_digit(s.last()) && v * 10 + digit_value(s.last()) <= usize::MAX {
                Some(v * 10 + digit_value(s.last()))
            } else {
                None
            },
            None => None,
        }
    }
}

/// What `str::parse::<usize>` accepts: an optional `+`, then at least one
/// decimal digit, the value within `usize`.
pub open spec fn number(s: Seq<char>) -> Option<usize> {
    let body = if s.len() > 0 && s[0] == '+' {
        s.skip(1)
    } else {
        s
    };
    if body.len() == 0 {
        None
    } else {
        match digits_value(body) {
            Some(v) => Some(v as usize),
            None => None,
        }
    }
}

/// Reads `s[from..to]` as a number.
#[verifier::loop_isolation(false)]
pub fn parse_number(s: &Vec<char>, from: usize, to: usize) -> (r: Option<usize>)
    requires
        from <= to <= s.len(),
    ensures
        r == number(s@.subrange(from as int, to as int)),
{
    let ghost whole = s@.subrange(from as int, to as int);
    let start: usize = if from < to && s[from] == '+' {
        from + 1
    } else {
        from
    };
    let ghost body = s@.subrange(start as int, to as int);
    assert(body =~= if whole.len() > 0 && whole[0] == '+' {
        whole.skip(1)
    } else {
        whole
    });
    if start == to {
        return None;
    }
    let mut i: usize = start;
    let mut acc: usize = 0;
    assert(body.take(0) =~= Seq::<char>::empty());
    while i < to
        invariant
            start <= i <= to <= s.len(),
            body == s@.subrange(start as int, to as int),
            digits_value(body.take(i - start)) == Some(acc as nat),
        decreases to - i,
    {
        let c = s[i];
        assert(body.take(i - start + 1).drop_last() =~= body.take(i - start));
        assert(body.take(i - start + 1).last() == c);
        let ghost rest_fails = !is_digit(c) || acc * 10 + digit_value(c) > usize::MAX;
        let mut ok = false;
        if '0' <= c && c <= '9' {
            let d: usize = (c as u32 - '0' as u32) as usize;
            match acc.checked_mul(10) {
                Some(m) => match m.checked_add(d) {
                    Some(v) => {
                        acc = v;
                        ok = true;
                    },
                    None => {},
                },
                None => {},
            }
        }
        if !ok {
            proof {
                assert(digits_value(body.take(i - start + 1)) is None);
                lemma_digits_none_extends(body, i - start + 1);
            }
            return None;
        }
        i += 1;
    }
    assert(body.take(to - start) =~= body);
    Some(acc)
}

/// Once a prefix has no value, no longer prefix has one.
pub proof fn lemma_digits_none_extends(s: Seq<char>, k: int)
    requires
        0 <= k <= s.len(),
        digits_value(s.take(k)) is None,
    ensures
        digits_value(s) is None,
    decreases s.len() - k,
{
    if k == s.len() {
        assert(s.take(k) =~= s);
    } else {
        assert(s.take(k + 1).drop_last() =~= s.take(k));
        lemma_digits_none_extends(s, k + 1);
    }
}

/// Splitting at every `sep`: the pieces that are complete, and the piece
/// being read.
pub open spec fn split_scan(s: Seq<char>, sep: char) -> (Seq<Seq<char>>, Seq<char>)
    decreases s.len(),
{
    if s.len() == 0 {
        (Seq::empty(), Seq::empty())
    } else {
        let (done, cur) = split_scan(s.drop_last(), sep);
        if s.last() == sep {
            (done.push(cur), Seq::empty())
        } else {
            (done, cur.push(s.last()))
        }
    }
}

/// The pieces of `s` between occurrences of `sep`, as `str::split` gives
/// them: one more than there are separators, empty pieces included.
pub open spec fn split(s: Seq<char>, sep: char) -> Seq<Seq<char>> {
    split_scan(s, sep).0.push(split_scan(s, sep).1)
}

pub fn split_at(s: &Vec<char>, sep: char) -> (r: Vec<Vec<char>>)
    ensures
        grid_view(r) == split(s@, sep),
{
    let mut done: Vec<Vec<char>> = Vec::new();
    let mut cur: Vec<char> = Vec::new();
    let mut i: usize = 0;
    assert(s@.take(0) =~= Seq::<char>::empty());
    assert(grid_view(done) =~= Seq::<Seq<char>>::empty());
    while i < s.len()
        invariant
            i <= s.len(),
            split_scan(s@.take(i as int), sep) == (grid_view(done), cur@),
        decreases s.len() - i,
    {
        let ghost before = grid_view(done);
        let ghost word = cur@;
        assert(s@.take(i + 1).drop_last() =~= s@.take(i as int));
        if s[i] == sep {
            done.push(cur);
            cur = Vec::new();
            assert(grid_view(done) =~= before.push(word));
        } else {
            cur.push(s[i]);
        }
        i += 1;
    }
    assert(s@.take(i as int) =~= s@);
    let ghost before = grid_view(done);
    done.push(cur);
    assert(grid_view(done) =~= before.push(split_scan(s@, sep).1));
    done
}

/// Splitting at white space: the words that are complete, and the word
/// being read.
pub open spec fn words_scan(s: Seq<char>) -> (Seq<Seq<char>>, Seq<char>)
    decreases s.len(),
{
    if s.len() == 0 {
        (Seq::empty(), Seq::empty())
    } else {
        let (done, cur) = words_scan(s.drop_last());
        if is_space(s.last()) {
            if cur.len() > 0 {
                (done.push(cur), Seq::empty())
            } else {
                (done, cur)
            }
        } else {
            (done, cur.push(s.last()))
        }
    }
}

/// The maximal runs of characters that are not white space, as
/// `str::split_whitespace` gives them.
pub open spec fn words(s: Seq<char>) -> Seq<Seq<char>> {
    let (done, cur) = words_scan(s);
    if cur.len() > 0 {
        done.push(cur)
    } else {
        done
    }
}

pub fn split_words(s: &Vec<char>) -> (r: Vec<Vec<char>>)
    ensures
        grid_view(r) == words(s@),
{
    let mut done: Vec<Vec<char>> = Vec::new();
    let mut cur: Vec<char> = Vec::new();
    let mut i: usize = 0;
    assert(s@.take(0) =~= Seq::<char>::empty());
    assert(grid_view(done) =~= Seq::<Seq<char>>::empty());
    while i < s.len()
        invariant
            i <= s.len(),
            words_scan(s@.take(i as int)) == (grid_view(done), cur@),
        decreases s.len() - i,
    {
        let ghost before = grid_view(done);
        let ghost word = cur@;
        assert(s@.take(i + 1).drop_last() =~= s@.take(i as int));
        if is_whitespace(s[i]) {
            if cur.len() > 0 {
                done.push(cur);
                cur = Vec::new();
                assert(grid_view(done) =~= before.push(word));
            }
        } else {
            cur.push(s[i]);
        }
        i += 1;
    }
    assert(s@.take(i as int) =~= s@);
    if cur.len() > 0 {
        let ghost before = grid_view(done);
        let ghost word = cur@;
        done.push(cur);
        assert(grid_view(done) =~= before.push(word));
    }
    done
}

/// The parts written one after another with `sep` between them.
pub open spec fn join(parts: Seq<Seq<char>>, sep: Seq<char>) -> Seq<char>
    decreases parts.len(),
{
    if parts.len() == 0 {
        Seq::empty()
    } else if parts.len() == 1 {
        parts[0]
    } else {
        join(parts.drop_last(), sep) + sep + parts.last()
    }
}

/// Whether `s` begins with `prefix`.
pub fn starts_with(s: &Vec<char>, prefix: &Vec<char>) -> (r: bool)
    ensures
        r == (prefix.len() <= s.len() && s@.take(prefix.len() as int) == prefix@),
{
    if prefix.len() > s.len() {
        return false;
    }
    let mut i: usize = 0;
    while i < prefix.len()
        invariant
            i <= prefix.len() <= s.len(),
            s@.take(i as int) == prefix@.take(i as int),
        decreases prefix.len() - i,
    {
        if s[i] != prefix[i] {
            assert(s@.take(prefix.len() as int)[i as int] != prefix@[i as int]);
            return false;
        }
        assert(s@.take(i + 1) =~= s@.take(i as int).push(s[i as int]));
        assert(prefix@.take(i + 1) =~= prefix@.take(i as int).push(prefix[i as int]));
        i += 1;
    }
    assert(prefix@.take(i as int) =~= prefix@);
    true
}

/// Whether two texts hold the same characters.
pub fn same_text(a: &Vec<char>, b: &Vec<char>) -> (r: bool)
    ensures
        r == (a@ == b@),
{
    if a.len() != b.len() {
        return false;
    }
    let r = starts_with(a, b);
    assert(a@.take(a.len() as int) =~= a@);
    r
}

/// `1` for true and `0` for false.
pub open spec fn flag_text(b: bool) -> Seq<char> {
    if b {
        seq!['1']
    } else {
        seq!['0']
    }
}

/// The truth value that `word` stands for, where it stands for one.
pub open spec fn text_flag(word: Seq<char>) -> Option<bool> {
    if word == seq!['1'] {
        Some(true)
    } else if word == seq!['0'] {
        Some(false)
    } else {
        None
    }
}

pub fn read_flag(word: &Vec<char>) -> (r: Option<bool>)
    ensures
        r == text_flag(word@),
{
    if word.len() == 1 && word[0] == '1' {
        assert(word@ =~= seq!['1']);
        Some(true)
    } else if word.len() == 1 && word[0] == '0' {
        assert(word@ =~= seq!['0']);
        assert(seq!['0'][0] != seq!['1'][0]);
        Some(false)
    } else {
        assert(seq!['1'].len() == 1 && seq!['1'][0] == '1');
        assert(seq!['0'].len() == 1 && seq!['0'][0] == '0');
        None
    }
}

/// A flag that is written is read back.
pub proof fn lemma_flag(b: bool)
    ensures
        text_flag(flag_text(b)) == Some(b),
{
    assert(seq!['0'][0] != seq!['1'][0]);
}

/// The move counter that `word` gives: a number from 1 that can still grow
/// by `room`.
pub open spec fn counter(word: Seq<char>, room: nat) -> Option<usize> {
    match number(word) {
        Some(n) => if n >= 1 && n + room <= usize::MAX {
            Some(n)
        } else {
            None
        },
        None => None,
    }
}

pub fn read_counter(word: &Vec<char>, room: usize) -> (r: Option<usize>)
    ensures
        r == counter(word@, room as nat),
{
    assert(word@.subrange(0, word.len() as int) =~= word@);
    match parse_number(word, 0, word.len()) {
        Some(n) => if n >= 1 && n <= usize::MAX - room {
            Some(n)
        } else {
            None
        },
        None => None,
    }
}

/// A counter that is written is read back, where it has the room.
pub proof fn lemma_counter(n: usize, room: nat)
    requires
        n >= 1,
        n + room <= usize::MAX,
    ensures
        counter(decimal(n as nat), room) == Some(n),
        decimal(n as nat).len() > 0,
        forall|i: int| 0 <= i < decimal(n as nat).len() ==> is_digit(#[trigger] decimal(n as nat)[i]),
{
    lemma_decimal(n as nat);
}

/// Appends the characters of `more` to `out`.
pub fn push_all(out: &mut Vec<char>, more: &Vec<char>)
    ensures
        final(out)@ == old(out)@ + more@,
{
    let mut i: usize = 0;
    while i < more.len()
        invariant
            i <= more.len(),
            out@ == old(out)@ + more@.take(i as int),
        decreases more.len() - i,
    {
        out.push(more[i]);
        assert(more@.take(i + 1) =~= more@.take(i as int).push(more[i as int]));
        assert(out@ =~= old(out)@ + more@.take(i + 1));
        i += 1;
    }
    assert(more@.take(i as int) =~= more@);
}

/// Appends the characters of the string `more` to `out`.
pub fn push_str(out: &mut Vec<char>, more: &str)
    ensures
        final(out)@ == old(out)@ + more@,
{
    let v = chars_of(more);
    push_all(out, &v);
}

/// The index of the first character from `from` on that is no white space.
pub open spec fn skip_spaces(s: Seq<char>, from: int) -> int
    decreases s.len() - from,
{
    if 0 <= from < s.len() && is_space(s[from]) {
        skip_spaces(s, from + 1)
    } else {
        from
    }
}

/// The index behind the last character before `to` that is no white space.
pub open spec fn trim_end(s: Seq<char>, to: int) -> int
    decreases to,
{
    if 0 < to <= s.len() && is_space(s[to - 1]) {
        trim_end(s, to - 1)
    } else {
        to
    }
}

/// `s` without the white space at its ends, as `str::trim` gives it.
pub open spec fn trim(s: Seq<char>) -> Seq<char> {
    let a = skip_spaces(s, 0);
    let b = trim_end(s, s.len() as int);
    if a < b {
        s.subrange(a, b)
    } else {
        Seq::empty()
    }
}

pub fn trim_text(s: &Vec<char>) -> (r: Vec<char>)
    ensures
        r@ == trim(s@),
{
    let mut a: usize = 0;
    while a < s.len() && is_whitespace(s[a])
        invariant
            a <= s.len(),
            skip_spaces(s@, 0) == skip_spaces(s@, a as int),
        decreases s.len() - a,
    {
        a += 1;
    }
    let mut b: usize = s.len();
    while b > 0 && is_whitespace(s[b - 1])
        invariant
            b <= s.len(),
            trim_end(s@, s.len() as int) == trim_end(s@, b as int),
        decreases b,
    {
        b -= 1;
    }
    let mut r: Vec<char> = Vec::new();
    if a < b {
        let mut i: usize = a;
        while i < b
            invariant
                a <= i <= b <= s.len(),
                r@ == s@.subrange(a as int, i as int),
            decreases b - i,
        {
            r.push(s[i]);
            assert(r@ =~= s@.subrange(a as int, i + 1));
            i += 1;
        }
    }
    r
}

/// A line without the carriage return that ends it, where it has one.
pub open spec fn strip_cr(l: Seq<char>) -> Seq<char> {
    if l.len() > 0 && l.last() == '\r' {
        l.drop_last()
    } else {
        l
    }
}

/// Splitting into lines: the lines that are complete, and the line being
/// read.
pub open spec fn lines_scan(s: Seq<char>) -> (Seq<Seq<char>>, Seq<char>)
    decreases s.len(),
{
    if s.len() == 0 {
        (Seq::empty(), Seq::empty())
    } else {
        let (done, cur) = lines_scan(s.drop_last());
        if s.last() == '\n' {
            (done.push(strip_cr(cur)), Seq::empty())
        } else {
            (done, cur.push(s.last()))
        }
    }
}

/// The lines of `s`, as `str::lines` gives them: each ends at a line feed,
/// which is taken off together with a carriage return before it; what
/// follows the last line feed is a line too, unless it is empty.
pub open spec fn lines(s: Seq<char>) -> Seq<Seq<char>> {
    let (done, cur) = lines_scan(s);
    if cur.len() > 0 {
        done.push(cur)
    } else {
        done
    }
}

pub fn split_lines(s: &Vec<char>) -> (r: Vec<Vec<char>>)
    ensures
        grid_view(r) == lines(s@),
{
    let mut done: Vec<Vec<char>> = Vec::new();
    let mut cur: Vec<char> = Vec::new();
    let mut i: usize = 0;
    assert(s@.take(0) =~= Seq::<char>::empty());
    assert(grid_view(done) =~= Seq::<Seq<char>>::empty());
    while i < s.len()
        invariant
            i <= s.len(),
            lines_scan(s@.take(i as int)) == (grid_view(done), cur@),
        decreases s.len() - i,
    {
        let ghost before = grid_view(done);
        let ghost line = cur@;
        assert(s@.take(i + 1).drop_last() =~= s@.take(i as int));
        if s[i] == '\n' {
            if cur.len() > 0 && cur[cur.len() - 1] == '\r' {
                cur.pop();
                assert(cur@ =~= strip_cr(line));
            }
            done.push(cur);
            cur = Vec::new();
            assert(grid_view(done) =~= before.push(strip_cr(line)));
        } else {
            cur.push(s[i]);
        }
        i += 1;
    }
    assert(s@.take(i as int) =~= s@);
    if cur.len() > 0 {
        let ghost before = grid_view(done);
        let ghost line = cur@;
        done.push(cur);
        assert(grid_view(done) =~= before.push(line));
    }
    done
}

/// The index of the first `, ` of `s` from `from` on, or the length of `s`
/// where there is none.
pub open spec fn first_comma(s: Seq<char>, from: int) -> int
    decreases s.len() - from,
{
    if 0 <= from < s.len() && !(s[from] == ',' && from + 1 < s.len() && s[from + 1] == ' ') {
        first_comma(s, from + 1)
    } else {
        from
    }
}

pub proof fn lemma_first_comma_bounds(s: Seq<char>, from: int)
    requires
        0 <= from <= s.len(),
    ensures
        from <= first_comma(s, from) <= s.len(),
        first_comma(s, from) < s.len() ==> first_comma(s, from) + 1 < s.len(),
    decreases s.len() - from,
{
    if from < s.len() && !(s[from] == ',' && from + 1 < s.len() && s[from + 1] == ' ') {
        lemma_first_comma_bounds(s, from + 1);
    }
}

/// Joining one part more: the separator stands before every part but the
/// first.
pub proof fn lemma_join_take(parts: Seq<Seq<char>>, sep: Seq<char>, k: int)
    requires
        0 <= k < parts.len(),
    ensures
        join(parts.take(k + 1), sep) == (if k == 0 {
            parts[0]
        } else {
            join(parts.take(k), sep) + sep + parts[k]
        }),
        join(parts.take(0), sep) == Seq::<char>::empty(),
{
    assert(parts.take(k + 1).drop_last() =~= parts.take(k));
    assert(parts.take(k + 1).last() == parts[k]);
    assert(parts.take(k + 1)[0] == parts[0]);
}

/// No character of `s` is white space.
pub open spec fn no_space(s: Seq<char>) -> bool {
    forall|i: int| 0 <= i < s.len() ==> !is_space(#[trigger] s[i])
}

/// No character of `s` is `c`.
pub open spec fn no_char(s: Seq<char>, c: char) -> bool {
    forall|i: int| 0 <= i < s.len() ==> #[trigger] s[i] != c
}

/// Text without white space goes on with the word being read.
pub proof fn lemma_words_scan_add(s: Seq<char>, t: Seq<char>)
    requires
        no_space(t),
    ensures
        words_scan(s + t) == (words_scan(s).0, words_scan(s).1 + t),
    decreases t.len(),
{
    if t.len() == 0 {
        assert(s + t =~= s);
        assert(words_scan(s).1 + t =~= words_scan(s).1);
    } else {
        let head = t.drop_last();
        assert(no_space(head)) by {
            assert forall|i: int| 0 <= i < head.len() implies !is_space(#[trigger] head[i]) by {
                assert(head[i] == t[i]);
            }
        }
        lemma_words_scan_add(s, head);
        assert((s + t).drop_last() =~= s + head);
        assert((s + t).last() == t.last());
        assert(!is_space(t[t.len() - 1]));
        assert(words_scan(s).1 + head.push(t.last()) =~= (words_scan(s).1 + head).push(t.last()));
        assert(head.push(t.last()) =~= t);
    }
}

/// The words of fields written with a blank between them are the fields,
/// where each field has a character and none has white space.
pub proof fn lemma_words_joined(parts: Seq<Seq<char>>)
    requires
        parts.len() > 0,
        forall|i: int| 0 <= i < parts.len() ==> (#[trigger] parts[i]).len() > 0 && no_space(parts[i]),
    ensures
        words_scan(join(parts, seq![' '])) == (parts.drop_last(), parts.last()),
        words(join(parts, seq![' '])) == parts,
    decreases parts.len(),
{
    let text = join(parts, seq![' ']);
    if parts.len() == 1 {
        lemma_words_scan_add(Seq::empty(), parts[0]);
        assert(Seq::<char>::empty() + parts[0] =~= parts[0]);
        assert(parts.drop_last() =~= Seq::<Seq<char>>::empty());
    } else {
        let head = parts.drop_last();
        assert forall|i: int| 0 <= i < head.len() implies (#[trigger] head[i]).len() > 0 && no_space(head[i]) by {
            assert(head[i] == parts[i]);
        }
        lemma_words_joined(head);
        let a = join(head, seq![' ']);
        let b = a + seq![' '];
        assert(b =~= a.push(' '));
        assert(b.drop_last() =~= a);
        assert(is_space(' '));
        assert(words_scan(b) == (head.drop_last().push(head.last()), Seq::<char>::empty()));
        assert(head.drop_last().push(head.last()) =~= head);
        lemma_words_scan_add(b, parts.last());
        assert(Seq::<char>::empty() + parts.last() =~= parts.last());
    }
    assert(parts.drop_last().push(parts.last()) =~= parts);
}

/// Text without the separator goes on with the piece being read.
pub proof fn lemma_split_scan_add(s: Seq<char>, t: Seq<char>, sep: char)
    requires
        no_char(t, sep),
    ensures
        split_scan(s + t, sep) == (split_scan(s, sep).0, split_scan(s, sep).1 + t),
    decreases t.len(),
{
    if t.len() == 0 {
        assert(s + t =~= s);
        assert(split_scan(s, sep).1 + t =~= split_scan(s, sep).1);
    } else {
        let head = t.drop_last();
        assert(no_char(head, sep)) by {
            assert forall|i: int| 0 <= i < head.len() implies #[trigger] head[i] != sep by {
                assert(head[i] == t[i]);
            }
        }
        lemma_split_scan_add(s, head, sep);
        assert((s + t).drop_last() =~= s + head);
        assert((s + t).last() == t.last());
        assert(t[t.len() - 1] != sep);
        assert(split_scan(s, sep).1 + head.push(t.last()) =~= (split_scan(s, sep).1 + head).push(t.last()));
        assert(head.push(t.last()) =~= t);
    }
}

/// The pieces of parts written with a separator between them are the
/// parts, where none of them holds the separator.
pub proof fn lemma_split_joined(parts: Seq<Seq<char>>, sep: char)
    requires
        parts.len() > 0,
        forall|i: int| 0 <= i < parts.len() ==> no_char(#[trigger] parts[i], sep),
    ensures
        split_scan(join(parts, seq![sep]), sep) == (parts.drop_last(), parts.last()),
        split(join(parts, seq![sep]), sep) == parts,
    decreases parts.len(),
{
    if parts.len() == 1 {
        lemma_split_scan_add(Seq::empty(), parts[0], sep);
        assert(Seq::<char>::empty() + parts[0] =~= parts[0]);
        assert(parts.drop_last() =~= Seq::<Seq<char>>::empty());
    } else {
        let head = parts.drop_last();
        assert forall|i: int| 0 <= i < head.len() implies no_char(#[trigger] head[i], sep) by {
            assert(head[i] == parts[i]);
        }
        lemma_split_joined(head, sep);
        let a = join(head, seq![sep]);
        let b = a + seq![sep];
        assert(b =~= a.push(sep));
        assert(b.drop_last() =~= a);
        assert(split_scan(b, sep) == (head.drop_last().push(head.last()), Seq::<char>::empty()));
        assert(head.drop_last().push(head.last()) =~= head);
        lemma_split_scan_add(b, parts.last(), sep);
        assert(Seq::<char>::empty() + parts.last() =~= parts.last());
    }
    assert(parts.drop_last().push(parts.last()) =~= parts);
}

/// What holds of every character of the parts and of the separator holds
/// of every character of the parts joined.
pub proof fn lemma_join_chars(parts: Seq<Seq<char>>, sep: Seq<char>, good: spec_fn(char) -> bool)
    requires
        forall|i: int, j: int| 0 <= i < parts.len() && 0 <= j < parts[i].len() ==> good(#[trigger] parts[i][j]),
        forall|j: int| 0 <= j < sep.len() ==> good(#[trigger] sep[j]),
    ensures
        forall|j: int| 0 <= j < join(parts, sep).len() ==> good(#[trigger] join(parts, sep)[j]),
        parts.len() > 0 ==> join(parts, sep).len() >= parts.last().len(),
    decreases parts.len(),
{
    if parts.len() > 1 {
        let head = parts.drop_last();
        assert forall|i: int, j: int| 0 <= i < head.len() && 0 <= j < head[i].len() implies good(
            #[trigger] head[i][j],
        ) by {
            assert(head[i] == parts[i]);
        }
        lemma_join_chars(head, sep, good);
        let a = join(head, sep);
        let all = join(parts, sep);
        assert forall|j: int| 0 <= j < all.len() implies good(#[trigger] all[j]) by {
            if j < a.len() {
                assert(all[j] == a[j]);
            } else if j < a.len() + sep.len() {
                assert(all[j] == sep[j - a.len()]);
            } else {
                assert(all[j] == parts[parts.len() - 1][j - a.len() - sep.len()]);
            }
        }
    } else if parts.len() == 1 {
        assert forall|j: int| 0 <= j < parts[0].len() implies good(#[trigger] join(parts, sep)[j]) by {
            assert(good(parts[0][j]));
        }
    }
}

/// A number written in decimal is made of digits and is read back as it
/// was.
pub proof fn lemma_decimal(n: nat)
    ensures
        decimal(n).len() > 0,
        forall|i: int| 0 <= i < decimal(n).len() ==> is_digit(#[trigger] decimal(n)[i]),
        n <= usize::MAX ==> digits_value(decimal(n)) == Some(n),
        n <= usize::MAX ==> number(decimal(n)) == Some(n as usize),
    decreases n,
{
    let d = digit_char(n % 10);
    assert(is_digit(d) && digit_value(d) == n % 10);
    if n < 10 {
        assert(decimal(n).drop_last() =~= Seq::<char>::empty());
        assert(decimal(n).last() == d);
        assert(digits_value(decimal(n).drop_last()) == Some(0nat));
        if n <= usize::MAX {
            assert(digits_value(decimal(n)) == Some(n));
        }
    } else {
        lemma_decimal(n / 10);
        let head = decimal(n / 10);
        assert(decimal(n).drop_last() =~= head);
        assert(decimal(n).last() == d);
        assert forall|i: int| 0 <= i < decimal(n).len() implies is_digit(#[trigger] decimal(n)[i]) by {
            if i < head.len() {
                assert(decimal(n)[i] == head[i]);
            }
        }
        if n <= usize::MAX {
            assert(digits_value(decimal(n).drop_last()) == Some(n / 10));
            assert((n / 10) * 10 + n % 10 == n);
            assert(digits_value(decimal(n)) == Some(n));
        }
    }
    assert(is_digit(decimal(n)[0]));
    assert(decimal(n)[0] != '+');
}

/// Joining one part more to parts that are there.
pub proof fn lemma_join_push(parts: Seq<Seq<char>>, sep: Seq<char>, last: Seq<char>)
    requires
        parts.len() > 0,
    ensures
        join(parts.push(last), sep) == join(parts, sep) + sep + last,
        join(seq![last], sep) == last,
{
    assert(parts.push(last).drop_last() =~= parts);
}

/// Text without a line feed goes on with the line being read.
pub proof fn lemma_lines_scan_add(s: Seq<char>, t: Seq<char>)
    requires
        no_char(t, '\n'),
    ensures
        lines_scan(s + t) == (lines_scan(s).0, lines_scan(s).1 + t),
    decreases t.len(),
{
    if t.len() == 0 {
        assert(s + t =~= s);
        assert(lines_scan(s).1 + t =~= lines_scan(s).1);
    } else {
        let head = t.drop_last();
        assert(no_char(head, '\n')) by {
            assert forall|i: int| 0 <= i < head.len() implies #[trigger] head[i] != '\n' by {
                assert(head[i] == t[i]);
            }
        }
        lemma_lines_scan_add(s, head);
        assert((s + t).drop_last() =~= s + head);
        assert((s + t).last() == t.last());
        assert(t[t.len() - 1] != '\n');
        assert(lines_scan(s).1 + head.push(t.last()) =~= (lines_scan(s).1 + head).push(t.last()));
        assert(head.push(t.last()) =~= t);
    }
}

/// The lines of lines written with a line feed between them are those
/// lines, where none of them holds a line feed or ends with a carriage
/// return and the last has a character.
pub proof fn lemma_lines_joined(parts: Seq<Seq<char>>)
    requires
        parts.len() > 0,
        forall|i: int| 0 <= i < parts.len() ==> no_char(#[trigger] parts[i], '\n'),
        forall|i: int| 0 <= i < parts.len() - 1 ==> strip_cr(#[trigger] parts[i]) == parts[i],
    ensures
        lines_scan(join(parts, seq!['\n'])) == (parts.drop_last(), parts.last()),
        parts.last().len() > 0 ==> lines(join(parts, seq!['\n'])) == parts,
    decreases parts.len(),
{
    if parts.len() == 1 {
        lemma_lines_scan_add(Seq::empty(), parts[0]);
        assert(Seq::<char>::empty() + parts[0] =~= parts[0]);
        assert(parts.drop_last() =~= Seq::<Seq<char>>::empty());
    } else {
        let head = parts.drop_last();
        assert forall|i: int| 0 <= i < head.len() implies no_char(#[trigger] head[i], '\n') by {
            assert(head[i] == parts[i]);
        }
        assert forall|i: int| 0 <= i < head.len() - 1 implies strip_cr(#[trigger] head[i]) == head[i] by {
            assert(head[i] == parts[i]);
        }
        lemma_lines_joined(head);
        let a = join(head, seq!['\n']);
        let b = a + seq!['\n'];
        assert(b =~= a.push('\n'));
        assert(b.drop_last() =~= a);
        assert(head.last() == parts[parts.len() - 2]);
        assert(lines_scan(b) == (head.drop_last().push(head.last()), Seq::<char>::empty()));
        assert(head.drop_last().push(head.last()) =~= head);
        lemma_lines_scan_add(b, parts.last());
        assert(Seq::<char>::empty() + parts.last() =~= parts.last());
    }
    assert(parts.drop_last().push(parts.last()) =~= parts);
}

/// `k` line feeds.
pub open spec fn newlines(k: nat) -> Seq<char> {
    Seq::new(k, |i: int| '\n')
}

/// Empty parts at the end add their separators alone.
pub proof fn lemma_join_empty_tail(parts: Seq<Seq<char>>, q: int)
    requires
        1 <= q <= parts.len(),
        forall|i: int| q <= i < parts.len() ==> (#[trigger] parts[i]).len() == 0,
    ensures
        join(parts, seq!['\n']) == join(parts.take(q), seq!['\n']) + newlines((parts.len() - q) as nat),
    decreases parts.len() - q,
{
    if q == parts.len() {
        assert(parts.take(q) =~= parts);
        assert(join(parts, seq!['\n']) + newlines(0) =~= join(parts, seq!['\n']));
    } else {
        let head = parts.drop_last();
        assert forall|i: int| q <= i < head.len() implies (#[trigger] head[i]).len() == 0 by {
            assert(head[i] == parts[i]);
        }
        lemma_join_empty_tail(head, q);
        assert(head.take(q) =~= parts.take(q));
        assert(parts.last().len() == 0);
        assert(join(parts, seq!['\n']) =~= join(parts.take(q), seq!['\n']) + newlines((parts.len() - q) as nat));
    }
}

pub proof fn lemma_trim_end_newlines(core: Seq<char>, k: nat, j: nat)
    requires
        core.len() > 0,
        !is_space(core.last()),
        j <= k,
    ensures
        trim_end(core + newlines(k), (core.len() + j) as int) == core.len(),
    decreases j,
{
    let s = core + newlines(k);
    if j == 0 {
        assert(s[core.len() - 1] == core.last());
    } else {
        assert(s[core.len() + j - 1] == '\n');
        assert(is_space('\n'));
        lemma_trim_end_newlines(core, k, (j - 1) as nat);
    }
}

/// Line feeds at the end are trimmed away, and nothing else where the
/// text begins and ends with characters that are no white space.
pub proof fn lemma_trim(core: Seq<char>, k: nat)
    requires
        core.len() > 0,
        !is_space(core[0]),
        !is_space(core.last()),
    ensures
        trim(core + newlines(k)) == core,
{
    let s = core + newlines(k);
    lemma_trim_end_newlines(core, k, k);
    assert(s[0] == core[0]);
    assert(skip_spaces(s, 0) == 0);
    assert(s.subrange(0, core.len() as int) =~= core);
}

/// Joining two rows of parts.
pub proof fn lemma_join_concat(a: Seq<Seq<char>>, b: Seq<Seq<char>>, sep: Seq<char>)
    requires
        a.len() > 0,
        b.len() > 0,
    ensures
        join(a + b, sep) == join(a, sep) + sep + join(b, sep),
    decreases b.len(),
{
    if b.len() == 1 {
        assert(a + b =~= a.push(b[0]));
        lemma_join_push(a, sep, b[0]);
    } else {
        let head = b.drop_last();
        lemma_join_concat(a, head, sep);
        assert((a + b).drop_last() =~= a + head);
        assert((a + b).last() == b.last());
        assert(join(a + b, sep) =~= join(a, sep) + sep + join(b, sep));
    }
}

/// Where the parts joined begin and end, and how long they are at least.
pub proof fn lemma_join_ends(parts: Seq<Seq<char>>, sep: Seq<char>)
    requires
        parts.len() > 0,
    ensures
        parts[0].len() > 0 ==> join(parts, sep).len() > 0 && join(parts, sep)[0] == parts[0][0],
        parts.last().len() > 0 ==> join(parts, sep).len() > 0 && join(parts, sep).last() == parts.last().last(),
        join(parts, sep).len() >= (parts.len() - 1) * sep.len(),
        join(parts, sep).len() >= parts.last().len(),
        join(parts, sep).len() >= parts[0].len(),
    decreases parts.len(),
{
    if parts.len() > 1 {
        let head = parts.drop_last();
        lemma_join_ends(head, sep);
        assert(head[0] == parts[0]);
        let a = join(head, sep);
        if parts[0].len() > 0 {
            assert(join(parts, sep)[0] == a[0]);
        }
        assert((parts.len() - 1) * sep.len() == (head.len() - 1) * sep.len() + sep.len()) by (nonlinear_arith)
            requires
                head.len() == parts.len() - 1,
        ;
    }
}

} // verus!
