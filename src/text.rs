use vstd::prelude::*;

verus! {

/// The characters that `char::is_whitespace` accepts (Unicode White_Space).
pub open spec fn is_blank(c: char) -> bool {
    let u = c as u32;
    ||| 0x09 <= u <= 0x0D
    ||| u == 0x20
    ||| u == 0x85
    ||| u == 0xA0
    ||| u == 0x1680
    ||| 0x2000 <= u <= 0x200A
    ||| u == 0x2028
    ||| u == 0x2029
    ||| u == 0x202F
    ||| u == 0x205F
    ||| u == 0x3000
}

pub fn blank(c: char) -> (r: bool)
    ensures
        r == is_blank(c),
{
    let u = c as u32;
    (0x09 <= u && u <= 0x0D) || u == 0x20 || u == 0x85 || u == 0xA0 || u == 0x1680 || (0x2000 <= u
        && u <= 0x200A) || u == 0x2028 || u == 0x2029 || u == 0x202F || u == 0x205F || u == 0x3000
}

pub open spec fn trim_start(s: Seq<char>) -> Seq<char>
    decreases s.len(),
{
    if s.len() > 0 && is_blank(s[0]) {
        trim_start(s.drop_first())
    } else {
        s
    }
}

pub open spec fn trim_end(s: Seq<char>) -> Seq<char>
    decreases s.len(),
{
    if s.len() > 0 && is_blank(s.last()) {
        trim_end(s.drop_last())
    } else {
        s
    }
}

/// `s` without its leading and trailing whitespace.
pub open spec fn trim(s: Seq<char>) -> Seq<char> {
    trim_end(trim_start(s))
}

/// The characters of `s`, one by one.
pub fn chars_of(s: &str) -> (r: Vec<char>)
    ensures
        r@ == s@,
{
    let n = s.unicode_len();
    let mut v: Vec<char> = Vec::new();
    let mut i: usize = 0;
    while i < n
        invariant
            n == s@.len(),
            i <= n,
            v@ == s@.subrange(0, i as int),
        decreases n - i,
    {
        v.push(s.get_char(i));
        i = i + 1;
        assert(v@ =~= s@.subrange(0, i as int));
    }
    assert(v@ =~= s@);
    v
}

/// Bounds `(a, b)` such that `cs[a..b]` is `cs[from..to]` trimmed.
pub fn trim_bounds(cs: &Vec<char>, from: usize, to: usize) -> (r: (usize, usize))
    requires
        from <= to <= cs@.len(),
    ensures
        from <= r.0 <= r.1 <= to,
        cs@.subrange(r.0 as int, r.1 as int) == trim(cs@.subrange(from as int, to as int)),
{
    let mut a = from;
    while a < to && blank(cs[a])
        invariant
            from <= a <= to <= cs@.len(),
            trim_start(cs@.subrange(from as int, to as int)) == trim_start(cs@.subrange(a as int, to as int)),
        decreases to - a,
    {
        assert(cs@.subrange(a as int, to as int).drop_first() =~= cs@.subrange(a + 1, to as int));
        a = a + 1;
    }
    let ghost t = cs@.subrange(a as int, to as int);
    assert(trim_start(t) == t);
    let mut b = to;
    while b > a && blank(cs[b - 1])
        invariant
            from <= a <= b <= to <= cs@.len(),
            trim_end(t) == trim_end(cs@.subrange(a as int, b as int)),
            t == cs@.subrange(a as int, to as int),
        decreases b - a,
    {
        assert(cs@.subrange(a as int, b as int).drop_last() =~= cs@.subrange(a as int, b - 1));
        b = b - 1;
    }
    assert(trim_end(cs@.subrange(a as int, b as int)) == cs@.subrange(a as int, b as int));
    (a, b)
}

/// `s` without its leading and trailing whitespace.
pub fn trimmed(s: &str) -> (r: String)
    ensures
        r@ == trim(s@),
{
    let cs = chars_of(s);
    let (a, b) = trim_bounds(&cs, 0, cs.len());
    assert(cs@.subrange(0, cs@.len() as int) =~= cs@);
    s.substring_char(a, b).to_owned()
}

/// Whether `c` occurs in `s`.
pub fn contains_char(s: &str, c: char) -> (r: bool)
    ensures
        r == s@.contains(c),
{
    let cs = chars_of(s);
    let mut i: usize = 0;
    while i < cs.len()
        invariant
            cs@ == s@,
            i <= cs@.len(),
            forall|j: int| 0 <= j < i ==> cs@[j] != c,
        decreases cs@.len() - i,
    {
        if cs[i] == c {
            return true;
        }
        i = i + 1;
    }
    false
}

/// Reading `s` up to `n` characters while splitting it at whitespace: the
/// tokens completed so far and the token being read.
pub open spec fn scan_tokens(s: Seq<char>, n: int) -> (Seq<Seq<char>>, Seq<char>)
    decreases n,
{
    if n <= 0 {
        (seq![], seq![])
    } else {
        let prev = scan_tokens(s, n - 1);
        let c = s[n - 1];
        if is_blank(c) {
            if prev.1.len() > 0 {
                (prev.0.push(prev.1), seq![])
            } else {
                prev
            }
        } else {
            (prev.0, prev.1.push(c))
        }
    }
}

/// The whitespace-separated tokens of `s`, in order; none is empty.
pub open spec fn tokens(s: Seq<char>) -> Seq<Seq<char>> {
    let end = scan_tokens(s, s.len() as int);
    if end.1.len() > 0 {
        end.0.push(end.1)
    } else {
        end.0
    }
}

pub open spec fn strs(v: Seq<String>) -> Seq<Seq<char>> {
    v.map_values(|s: String| s@)
}

proof fn lemma_strs_push(v: Seq<String>, s: String)
    ensures
        strs(v.push(s)) == strs(v).push(s@),
{
    assert(strs(v.push(s)) =~= strs(v).push(s@));
}

/// The whitespace-separated tokens of `s[from..]`, where `cs` holds the characters of `s`.
pub fn split_tokens(s: &str, cs: &Vec<char>, from: usize) -> (r: Vec<String>)
    requires
        cs@ == s@,
        from <= cs@.len(),
    ensures
        strs(r@) == tokens(cs@.subrange(from as int, cs@.len() as int)),
{
    let ghost t = cs@.subrange(from as int, cs@.len() as int);
    let mut out: Vec<String> = Vec::new();
    let mut start = from;
    let mut i = from;
    while i < cs.len()
        invariant
            cs@ == s@,
            t == cs@.subrange(from as int, cs@.len() as int),
            from <= start <= i <= cs@.len(),
            scan_tokens(t, i - from).0 == strs(out@),
            scan_tokens(t, i - from).1 == cs@.subrange(start as int, i as int),
        decreases cs@.len() - i,
    {
        let ghost prev_out = out@;
        assert(t[i - from] == cs@[i as int]);
        if blank(cs[i]) {
            if start < i {
                let tok = s.substring_char(start, i).to_owned();
                out.push(tok);
                proof {
                    lemma_strs_push(prev_out, tok);
                }
            }
            start = i + 1;
        } else {
            assert(cs@.subrange(start as int, i + 1) =~= cs@.subrange(start as int, i as int).push(cs@[i as int]));
        }
        i = i + 1;
        assert(cs@.subrange(start as int, i as int).len() == 0 ==> cs@.subrange(start as int, i as int) =~= seq![]);
    }
    if start < i {
        let tok = s.substring_char(start, i).to_owned();
        let ghost prev_out = out@;
        out.push(tok);
        proof {
            lemma_strs_push(prev_out, tok);
        }
    }
    out
}

/// Reading `s` up to `n` characters while cutting it into lines: the lines
/// completed so far (each without its `\n`, nor a `\r` just before it) and
/// the line being read.
pub open spec fn scan_lines(s: Seq<char>, n: int) -> (Seq<Seq<char>>, Seq<char>)
    decreases n,
{
    if n <= 0 {
        (seq![], seq![])
    } else {
        let prev = scan_lines(s, n - 1);
        if s[n - 1] == '\n' {
            let line = if prev.1.len() > 0 && prev.1.last() == '\r' {
                prev.1.drop_last()
            } else {
                prev.1
            };
            (prev.0.push(line), seq![])
        } else {
            (prev.0, prev.1.push(s[n - 1]))
        }
    }
}

/// The lines of a text, as a buffered reader yields them: a last line without
/// a newline counts when it is not empty.
pub open spec fn lines_of(s: Seq<char>) -> Seq<Seq<char>> {
    let end = scan_lines(s, s.len() as int);
    if end.1.len() > 0 {
        end.0.push(end.1)
    } else {
        end.0
    }
}

/// The lines of `text`.
pub fn split_lines(text: &str) -> (r: Vec<String>)
    ensures
        strs(r@) == lines_of(text@),
{
    let cs = chars_of(text);
    let mut out: Vec<String> = Vec::new();
    let mut start: usize = 0;
    let mut i: usize = 0;
    while i < cs.len()
        invariant
            cs@ == text@,
            start <= i <= cs@.len(),
            scan_lines(text@, i as int).0 == strs(out@),
            scan_lines(text@, i as int).1 == cs@.subrange(start as int, i as int),
        decreases cs@.len() - i,
    {
        let ghost prev_out = out@;
        if cs[i] == '\n' {
            let end = if start < i && cs[i - 1] == '\r' {
                i - 1
            } else {
                i
            };
            assert(start < i ==> cs@.subrange(start as int, i as int).last() == cs@[i - 1]);
            assert(start < i ==> cs@.subrange(start as int, i as int).drop_last() =~= cs@.subrange(start as int, i - 1));
            let line = text.substring_char(start, end).to_owned();
            out.push(line);
            proof {
                lemma_strs_push(prev_out, line);
            }
            start = i + 1;
        } else {
            assert(cs@.subrange(start as int, i + 1) =~= cs@.subrange(start as int, i as int).push(cs@[i as int]));
        }
        i = i + 1;
        assert(start == i ==> cs@.subrange(start as int, i as int) =~= seq![]);
    }
    if start < i {
        let line = text.substring_char(start, i).to_owned();
        let ghost prev_out = out@;
        out.push(line);
        proof {
            lemma_strs_push(prev_out, line);
        }
    }
    out
}

} // verus!
