use vstd::prelude::*;
use crate::text::{chars_of, lines_of, scan_lines, split_lines};

verus! {

/// The record of past runs: for each rule name, the unix time (in seconds)
/// of its last completed run. Names are kept unique.
pub struct StateStore {
    entries: Vec<(String, u64)>,
}

pub open spec fn entries_map(s: Seq<(String, u64)>) -> Map<Seq<char>, u64>
    decreases s.len(),
{
    if s.len() == 0 {
        Map::empty()
    } else {
        entries_map(s.drop_last()).insert(s.last().0@, s.last().1)
    }
}

pub proof fn lemma_entries_map(s: Seq<(String, u64)>)
    requires
        forall|i: int, j: int| 0 <= i < j < s.len() ==> s[i].0@ != s[j].0@,
    ensures
        forall|k: Seq<char>|
            entries_map(s).contains_key(k) <==> exists|j: int| 0 <= j < s.len() && s[j].0@ == k,
        forall|j: int| 0 <= j < s.len() ==> entries_map(s)[#[trigger] s[j].0@] == s[j].1,
        entries_map(s).dom().finite(),
        entries_map(s).dom().len() == s.len(),
    decreases s.len(),
{
    if s.len() > 0 {
        let p = s.drop_last();
        lemma_entries_map(p);
        assert forall|k: Seq<char>|
            entries_map(s).contains_key(k) <==> exists|j: int| 0 <= j < s.len() && s[j].0@ == k by {
            if entries_map(p).contains_key(k) {
                let j = choose|j: int| 0 <= j < p.len() && p[j].0@ == k;
                assert(s[j].0@ == k);
            }
            if exists|j: int| 0 <= j < s.len() && s[j].0@ == k {
                let j = choose|j: int| 0 <= j < s.len() && s[j].0@ == k;
                if j < s.len() - 1 {
                    assert(p[j].0@ == k);
                }
            }
        }
        assert forall|j: int| 0 <= j < s.len() implies entries_map(s)[#[trigger] s[j].0@] == s[j].1 by {
            if j < s.len() - 1 {
                assert(p[j] == s[j]);
            }
        }
        assert(!entries_map(p).contains_key(s.last().0@)) by {
            if entries_map(p).contains_key(s.last().0@) {
                let j = choose|j: int| 0 <= j < p.len() && p[j].0@ == s.last().0@;
                assert(s[j].0@ == s[s.len() - 1].0@);
            }
        }
    }
}

/// The map that inserting a listing's pairs in order builds.
pub open spec fn listing_map(l: Seq<(Seq<char>, u64)>) -> Map<Seq<char>, u64>
    decreases l.len(),
{
    if l.len() == 0 {
        Map::empty()
    } else {
        listing_map(l.drop_last()).insert(l.last().0, l.last().1)
    }
}

proof fn lemma_listing_map(s: Seq<(String, u64)>)
    ensures
        listing_map(s.map_values(|e: (String, u64)| (e.0@, e.1))) == entries_map(s),
    decreases s.len(),
{
    if s.len() > 0 {
        lemma_listing_map(s.drop_last());
        assert(s.drop_last().map_values(|e: (String, u64)| (e.0@, e.1)) =~= s.map_values(
            |e: (String, u64)| (e.0@, e.1),
        ).drop_last());
    }
}

pub open spec fn digit_char(d: int) -> char {
    if d == 0 { '0' } else if d == 1 { '1' } else if d == 2 { '2' } else if d == 3 { '3' }
    else if d == 4 { '4' } else if d == 5 { '5' } else if d == 6 { '6' } else if d == 7 { '7' }
    else if d == 8 { '8' } else { '9' }
}

pub open spec fn is_digit(c: char) -> bool {
    '0' <= c <= '9'
}

pub open spec fn digit_value(c: char) -> int {
    c as u32 - 48
}

/// The decimal digits of `n`, without leading zeros.
pub open spec fn decimal(n: nat) -> Seq<char>
    decreases n,
{
    if n < 10 {
        seq![digit_char(n as int)]
    } else {
        decimal(n / 10).push(digit_char((n % 10) as int))
    }
}

/// The number that a sequence of decimal digits spells.
pub open spec fn value_of(s: Seq<char>) -> int
    decreases s.len(),
{
    if s.len() == 0 {
        0
    } else {
        value_of(s.drop_last()) * 10 + digit_value(s.last())
    }
}

pub open spec fn all_digits(s: Seq<char>) -> bool {
    forall|i: int| 0 <= i < s.len() ==> is_digit(#[trigger] s[i])
}

/// The number a timestamp's text stands for, read as `u64` is parsed from a
/// string: decimal digits, possibly after one `+`, of a value that fits.
pub open spec fn number(s: Seq<char>) -> Option<u64> {
    let d = if s.len() > 0 && s[0] == '+' {
        s.drop_first()
    } else {
        s
    };
    if d.len() > 0 && all_digits(d) && value_of(d) <= u64::MAX {
        Some(value_of(d) as u64)
    } else {
        None
    }
}

/// `c` is the position of the last `:` of `t`.
pub open spec fn last_colon(t: Seq<char>, c: int) -> bool {
    &&& 0 <= c < t.len()
    &&& t[c] == ':'
    &&& forall|j: int| c < j < t.len() ==> t[j] != ':'
}

/// The name and time that a line of the store's text holds: what stands
/// before its last `:`, and the number after it.
pub open spec fn entry_of(t: Seq<char>) -> Option<(Seq<char>, u64)> {
    if exists|c: int| last_colon(t, c) {
        let c = choose|c: int| last_colon(t, c);
        match number(t.subrange(c + 1, t.len() as int)) {
            Some(v) => Some((t.subrange(0, c), v)),
            None => None,
        }
    } else {
        None
    }
}

/// The store that the first `n` lines give, or `None` if one of them is no entry.
pub open spec fn load_lines(lines: Seq<Seq<char>>, n: int) -> Option<Map<Seq<char>, u64>>
    decreases n,
{
    if n <= 0 {
        Some(Map::empty())
    } else {
        match load_lines(lines, n - 1) {
            None => None,
            Some(m) => match entry_of(lines[n - 1]) {
                None => None,
                Some(e) => Some(m.insert(e.0, e.1)),
            },
        }
    }
}

/// The store that a text gives, or `None` if one of its lines is no entry.
pub open spec fn load(text: Seq<char>) -> Option<Map<Seq<char>, u64>> {
    load_lines(lines_of(text), lines_of(text).len() as int)
}

pub open spec fn entry_line(e: (Seq<char>, u64)) -> Seq<char> {
    e.0 + seq![':'] + decimal(e.1 as nat)
}

/// The text of a listing: one `name:timestamp` line per pair.
pub open spec fn text_of(l: Seq<(Seq<char>, u64)>) -> Seq<char>
    decreases l.len(),
{
    if l.len() == 0 {
        seq![]
    } else {
        text_of(l.drop_last()) + entry_line(l.last()) + seq!['\n']
    }
}

proof fn lemma_load_none(lines: Seq<Seq<char>>, k: int, n: int)
    requires
        0 < k <= n,
        load_lines(lines, k) is None,
    ensures
        load_lines(lines, n) is None,
    decreases n - k,
{
    if n > k {
        lemma_load_none(lines, k, n - 1);
    }
}

fn digit_str(d: u64) -> (r: &'static str)
    requires
        d < 10,
    ensures
        r@ == seq![digit_char(d as int)],
{
    proof {
        reveal_strlit("0");
        reveal_strlit("1");
        reveal_strlit("2");
        reveal_strlit("3");
        reveal_strlit("4");
        reveal_strlit("5");
        reveal_strlit("6");
        reveal_strlit("7");
        reveal_strlit("8");
        reveal_strlit("9");
    }
    if d == 0 { "0" } else if d == 1 { "1" } else if d == 2 { "2" } else if d == 3 { "3" }
    else if d == 4 { "4" } else if d == 5 { "5" } else if d == 6 { "6" } else if d == 7 { "7" }
    else if d == 8 { "8" } else { "9" }
}

/// The decimal digits of `n`.
pub fn decimal_string(n: u64) -> (r: String)
    ensures
        r@ == decimal(n as nat),
    decreases n,
{
    if n < 10 {
        String::from_str(digit_str(n))
    } else {
        let high = decimal_string(n / 10);
        high.concat(digit_str(n % 10))
    }
}

/// The number that `s` stands for, as `number` reads it.
pub fn parse_number(s: &str) -> (r: Option<u64>)
    ensures
        r == number(s@),
{
    let cs = chars_of(s);
    let from: usize = if cs.len() > 0 && cs[0] == '+' { 1 } else { 0 };
    let ghost d = if s@.len() > 0 && s@[0] == '+' { s@.drop_first() } else { s@ };
    assert(d =~= cs@.subrange(from as int, cs@.len() as int));
    if from == cs.len() {
        return None;
    }
    let mut v: u64 = 0;
    let mut over = false;
    let mut i = from;
    assert(d.take(0) =~= seq![]);
    while i < cs.len()
        invariant
            from <= i <= cs@.len(),
            d == cs@.subrange(from as int, cs@.len() as int),
            d == (if s@.len() > 0 && s@[0] == '+' { s@.drop_first() } else { s@ }),
            all_digits(d.take(i - from)),
            !over ==> v == value_of(d.take(i - from)),
            over ==> value_of(d.take(i - from)) > u64::MAX,
        decreases cs@.len() - i,
    {
        let c = cs[i];
        if !('0' <= c && c <= '9') {
            assert(d[i - from] == c);
            assert(!is_digit(d[i - from]));
            assert(!all_digits(d));
            return None;
        }
        let dv = ((c as u32) - 48) as u64;
        let ghost t1 = d.take(i - from + 1);
        assert(t1.drop_last() =~= d.take(i - from));
        assert(t1.last() == c);
        assert(value_of(t1) == value_of(d.take(i - from)) * 10 + dv);
        if !over {
            if v > (u64::MAX - dv) / 10 {
                over = true;
            } else {
                v = v * 10 + dv;
            }
        }
        i = i + 1;
    }
    assert(d.take(i - from) =~= d);
    if over {
        None
    } else {
        Some(v)
    }
}

/// The name and time that one line of the store's text holds.
fn parse_entry(line: &str) -> (r: Option<(String, u64)>)
    ensures
        match entry_of(line@) {
            Some(e) => r matches Some(p) && p.0@ == e.0 && p.1 == e.1,
            None => r is None,
        },
{
    let cs = chars_of(line);
    let mut c = cs.len();
    while c > 0 && cs[c - 1] != ':'
        invariant
            c <= cs@.len(),
            cs@ == line@,
            forall|j: int| c <= j < cs@.len() ==> cs@[j] != ':',
        decreases c,
    {
        c = c - 1;
    }
    if c == 0 {
        assert forall|k: int| !last_colon(line@, k) by {
            if 0 <= k < line@.len() {
                assert(cs@[k] == line@[k]);
            }
        }
        return None;
    }
    let at = c - 1;
    assert(last_colon(line@, at as int));
    proof {
        let k = choose|k: int| last_colon(line@, k);
        assert(k == at as int) by {
            if k < at {
                assert(line@[at as int] != ':');
            } else if k > at {
                assert(line@[k] != ':');
            }
        }
    }
    match parse_number(line.substring_char(c, cs.len())) {
        None => None,
        Some(t) => Some((line.substring_char(0, at).to_owned(), t)),
    }
}

impl View for StateStore {
    type V = Map<Seq<char>, u64>;

    closed spec fn view(&self) -> Map<Seq<char>, u64> {
        entries_map(self.entries@)
    }
}

impl StateStore {
    /// No name is recorded twice.
    pub closed spec fn wf(&self) -> bool {
        forall|i: int, j: int|
            0 <= i < j < self.entries@.len() ==> self.entries@[i].0@ != self.entries@[j].0@
    }

    pub fn new() -> (r: StateStore)
        ensures
            r.wf(),
            r@ == Map::<Seq<char>, u64>::empty(),
    {
        StateStore { entries: Vec::new() }
    }

    /// Number of recorded names.
    pub fn len(&self) -> (r: usize)
        requires
            self.wf(),
        ensures
            r == self@.dom().len(),
    {
        proof {
            lemma_entries_map(self.entries@);
        }
        self.entries.len()
    }

    fn position(&self, name: &str) -> (r: Option<usize>)
        requires
            self.wf(),
        ensures
            match r {
                Some(j) => j < self.entries@.len() && self.entries@[j as int].0@ == name@,
                None => !self@.contains_key(name@),
            },
    {
        proof {
            lemma_entries_map(self.entries@);
        }
        let key = name.to_owned();
        let mut i: usize = 0;
        while i < self.entries.len()
            invariant
                i <= self.entries@.len(),
                key@ == name@,
                forall|j: int| 0 <= j < i ==> self.entries@[j].0@ != name@,
            decreases self.entries@.len() - i,
        {
            if self.entries[i].0 == key {
                return Some(i);
            }
            i = i + 1;
        }
        None
    }

    /// The time recorded for `name`, if any.
    pub fn get(&self, name: &str) -> (r: Option<u64>)
        requires
            self.wf(),
        ensures
            r == (if self@.contains_key(name@) {
                Some(self@[name@])
            } else {
                None
            }),
    {
        proof {
            lemma_entries_map(self.entries@);
        }
        match self.position(name) {
            Some(j) => Some(self.entries[j].1),
            None => None,
        }
    }

    /// Records `timestamp` as the last run of `name`, replacing what was there.
    pub fn record(&mut self, name: &str, timestamp: u64)
        requires
            old(self).wf(),
        ensures
            final(self).wf(),
            final(self)@ == old(self)@.insert(name@, timestamp),
    {
        proof {
            lemma_entries_map(self.entries@);
        }
        match self.position(name) {
            Some(j) => {
                let ghost before = self.entries@;
                self.entries.set(j, (name.to_owned(), timestamp));
                proof {
                    lemma_entries_map(self.entries@);
                    assert forall|k: Seq<char>|
                        #![auto]
                        entries_map(self.entries@).contains_key(k) == entries_map(before).insert(
                            name@,
                            timestamp,
                        ).contains_key(k) by {
                        if exists|i: int| 0 <= i < before.len() && before[i].0@ == k {
                            let i = choose|i: int| 0 <= i < before.len() && before[i].0@ == k;
                            assert(self.entries@[i].0@ == k);
                        }
                        if exists|i: int| 0 <= i < before.len() && self.entries@[i].0@ == k {
                            let i = choose|i: int| 0 <= i < before.len() && self.entries@[i].0@ == k;
                            if i != j {
                                assert(before[i].0@ == k);
                            }
                        }
                    }
                    assert forall|k: Seq<char>|
                        #![auto]
                        entries_map(self.entries@).contains_key(k) implies entries_map(self.entries@)[k]
                            == entries_map(before).insert(name@, timestamp)[k] by {
                        let i = choose|i: int| 0 <= i < before.len() && self.entries@[i].0@ == k;
                        if i != j {
                            assert(before[i] == self.entries@[i]);
                        }
                    }
                    assert(entries_map(self.entries@) =~= entries_map(before).insert(name@, timestamp));
                }
            },
            None => {
                let ghost before = self.entries@;
                self.entries.push((name.to_owned(), timestamp));
                proof {
                    assert(self.entries@.drop_last() =~= before);
                    assert forall|i: int| 0 <= i < before.len() implies before[i].0@ != name@ by {
                        lemma_entries_map(before);
                    }
                }
            },
        }
    }

    /// The recorded names and times, in the order they were first recorded.
    pub closed spec fn listing(&self) -> Seq<(Seq<char>, u64)> {
        self.entries@.map_values(|e: (String, u64)| (e.0@, e.1))
    }

    /// The listing builds the store's mapping, and names exactly its keys.
    pub proof fn lemma_listing(&self)
        requires
            self.wf(),
        ensures
            listing_map(self.listing()) == self@,
            self.listing().len() == self@.dom().len(),
            forall|i: int, j: int| 0 <= i < j < self.listing().len() ==> self.listing()[i].0 != self.listing()[j].0,
            forall|k: Seq<char>| self@.contains_key(k) <==> exists|j: int| 0 <= j < self.listing().len() && self.listing()[j].0 == k,
    {
        lemma_entries_map(self.entries@);
        lemma_listing_map(self.entries@);
        assert forall|k: Seq<char>| self@.contains_key(k) implies exists|j: int| 0 <= j < self.listing().len() && self.listing()[j].0 == k by {
            let j = choose|j: int| 0 <= j < self.entries@.len() && self.entries@[j].0@ == k;
            assert(self.listing()[j].0 == k);
        }
        assert forall|k: Seq<char>| (exists|j: int| 0 <= j < self.listing().len() && self.listing()[j].0 == k) implies self@.contains_key(k) by {
            let j = choose|j: int| 0 <= j < self.listing().len() && self.listing()[j].0 == k;
            assert(self.entries@[j].0@ == k);
        }
    }

    /// The store as text: one `name:timestamp` line per entry, each ended by a newline.
    pub fn to_text(&self) -> (r: String)
        requires
            self.wf(),
        ensures
            r@ == text_of(self.listing()),
    {
        let mut out = String::new();
        let mut i: usize = 0;
        assert(text_of(self.listing().take(0)) =~= seq![]);
        while i < self.entries.len()
            invariant
                i <= self.entries@.len(),
                out@ == text_of(self.listing().take(i as int)),
            decreases self.entries@.len() - i,
        {
            let t = decimal_string(self.entries[i].1);
            out = out.concat(self.entries[i].0.as_str()).concat(":").concat(t.as_str()).concat("\n");
            proof {
                reveal_strlit(":");
                reveal_strlit("\n");
                let l = self.listing().take(i + 1);
                assert(l.drop_last() =~= self.listing().take(i as int));
                assert(out@ =~= text_of(l));
            }
            i = i + 1;
        }
        assert(self.listing().take(i as int) =~= self.listing());
        out
    }

    /// Reads a store from its text. Fails on a line that is not a name, a `:`
    /// and a timestamp that fits in 64 bits; a name recorded twice keeps its
    /// last time.
    pub fn from_text(text: &str) -> (r: Result<StateStore, String>)
        ensures
            match load(text@) {
                Some(m) => r matches Ok(s) && s.wf() && s@ == m,
                None => r is Err,
            },
    {
        let lines = split_lines(text);
        let ghost ls = lines_of(text@);
        let mut store = StateStore::new();
        let mut i: usize = 0;
        while i < lines.len()
            invariant
                i <= lines@.len(),
                ls == lines_of(text@),
                ls.len() == lines@.len(),
                forall|j: int| 0 <= j < ls.len() ==> ls[j] == #[trigger] lines@[j]@,
                store.wf(),
                load_lines(ls, i as int) == Some(store@),
            decreases lines@.len() - i,
        {
            assert(ls[i as int] == lines@[i as int]@);
            match parse_entry(lines[i].as_str()) {
                None => {
                    proof {
                        assert(entry_of(ls[i as int]) is None);
                        assert(load_lines(ls, i as int + 1) is None);
                        lemma_load_none(ls, i as int + 1, ls.len() as int);
                        assert(load(text@) is None);
                    }
                    return Err(String::from_str("bad state entry: ").concat(lines[i].as_str()));
                },
                Some((name, t)) => {
                    store.record(name.as_str(), t);
                },
            }
            i = i + 1;
        }
        Ok(store)
    }
}

} // verus!

verus! {

proof fn lemma_scan_lines_prefix(s: Seq<char>, t: Seq<char>, n: int)
    requires
        0 <= n <= s.len(),
        n <= t.len(),
        s.take(n) == t.take(n),
    ensures
        scan_lines(s, n) == scan_lines(t, n),
    decreases n,
{
    if n > 0 {
        assert(s.take(n - 1) =~= s.take(n).take(n - 1));
        assert(t.take(n - 1) =~= t.take(n).take(n - 1));
        lemma_scan_lines_prefix(s, t, n - 1);
        assert(s[n - 1] == s.take(n)[n - 1]);
        assert(t[n - 1] == t.take(n)[n - 1]);
    }
}

proof fn lemma_scan_lines_concat(p: Seq<char>, q: Seq<char>, j: int)
    requires
        scan_lines(p, p.len() as int).1 == Seq::<char>::empty(),
        0 <= j <= q.len(),
    ensures
        scan_lines(p + q, p.len() + j) == (scan_lines(p, p.len() as int).0 + scan_lines(q, j).0, scan_lines(q, j).1),
    decreases j,
{
    let a = scan_lines(p, p.len() as int);
    if j == 0 {
        assert((p + q).take(p.len() as int) =~= p.take(p.len() as int));
        lemma_scan_lines_prefix(p + q, p, p.len() as int);
        assert(a.0 + Seq::<Seq<char>>::empty() =~= a.0);
    } else {
        lemma_scan_lines_concat(p, q, j - 1);
        assert((p + q)[p.len() + j - 1] == q[j - 1]);
        let b = scan_lines(q, j - 1);
        if q[j - 1] == '\n' {
            let line = if b.1.len() > 0 && b.1.last() == '\r' { b.1.drop_last() } else { b.1 };
            assert((a.0 + b.0).push(line) =~= a.0 + b.0.push(line));
        }
    }
}

proof fn lemma_chunk_scan(c: Seq<char>, j: int)
    requires
        !c.contains('\n'),
        0 <= j <= c.len(),
    ensures
        scan_lines(c, j) == (Seq::<Seq<char>>::empty(), c.take(j)),
    decreases j,
{
    if j == 0 {
        assert(c.take(0) =~= Seq::<char>::empty());
    } else {
        lemma_chunk_scan(c, j - 1);
        assert(c[j - 1] != '\n');
        assert(c.take(j - 1).push(c[j - 1]) =~= c.take(j));
    }
}

proof fn lemma_line_scan(c: Seq<char>)
    requires
        !c.contains('\n'),
        c.len() > 0,
        c.last() != '\r',
    ensures
        scan_lines(c.push('\n'), c.len() + 1int) == (seq![c], Seq::<char>::empty()),
{
    let q = c.push('\n');
    lemma_chunk_scan(c, c.len() as int);
    assert(q.take(c.len() as int) =~= c.take(c.len() as int));
    lemma_scan_lines_prefix(q, c, c.len() as int);
    assert(c.take(c.len() as int) =~= c);
    assert(Seq::<Seq<char>>::empty().push(c) =~= seq![c]);
}

proof fn lemma_digit(d: int)
    requires
        0 <= d < 10,
    ensures
        digit_value(digit_char(d)) == d,
        is_digit(digit_char(d)),
{
}

proof fn lemma_decimal(n: nat)
    ensures
        decimal(n).len() > 0,
        all_digits(decimal(n)),
        value_of(decimal(n)) == n,
    decreases n,
{
    if n < 10 {
        lemma_digit(n as int);
        assert(decimal(n).drop_last() =~= Seq::<char>::empty());
        assert(value_of(decimal(n)) == value_of(decimal(n).drop_last()) * 10 + digit_value(decimal(n).last()));
    } else {
        lemma_decimal(n / 10);
        let d = decimal(n);
        assert(d.drop_last() =~= decimal(n / 10));
        lemma_digit((n % 10) as int);
        assert((n / 10) * 10 + n % 10 == n);
        assert(d.last() == digit_char((n % 10) as int));
        assert(value_of(d) == value_of(d.drop_last()) * 10 + digit_value(d.last()));
        assert forall|i: int| 0 <= i < d.len() implies is_digit(#[trigger] d[i]) by {
            if i < d.len() - 1 {
                assert(d[i] == decimal(n / 10)[i]);
            }
        }
    }
}

proof fn lemma_entry_line(e: (Seq<char>, u64))
    requires
        !e.0.contains('\n'),
    ensures
        !entry_line(e).contains('\n'),
        entry_line(e).len() > 0,
        entry_line(e).last() != '\r',
        entry_of(entry_line(e)) == Some(e),
{
    let t = entry_line(e);
    let d = decimal(e.1 as nat);
    let c = e.0.len() as int;
    lemma_decimal(e.1 as nat);
    assert(t.subrange(c + 1, t.len() as int) =~= d);
    assert(t.subrange(0, c) =~= e.0);
    assert forall|j: int| c < j < t.len() implies t[j] != ':' && t[j] != '\n' by {
        assert(t[j] == d[j - c - 1]);
        assert(is_digit(d[j - c - 1]));
    }
    assert(!t.contains('\n')) by {
        if t.contains('\n') {
            let j = choose|j: int| 0 <= j < t.len() && t[j] == '\n';
            if j < c {
                assert(e.0[j] == '\n');
            }
        }
    }
    assert(t.last() == d.last());
    assert(is_digit(d[d.len() - 1]));
    assert(last_colon(t, c));
    let k = choose|k: int| last_colon(t, k);
    assert(k == c) by {
        if k < c {
            assert(t[c] == ':');
        } else if k > c {
            assert(t[k] != ':');
        }
    }
    assert(is_digit(d[0]));
    assert(number(d) == Some(e.1));
}

proof fn lemma_text_lines(l: Seq<(Seq<char>, u64)>)
    requires
        forall|j: int| 0 <= j < l.len() ==> !(#[trigger] l[j]).0.contains('\n'),
    ensures
        scan_lines(text_of(l), text_of(l).len() as int) == (l.map_values(|e: (Seq<char>, u64)| entry_line(e)), Seq::<char>::empty()),
    decreases l.len(),
{
    if l.len() > 0 {
        let p = text_of(l.drop_last());
        let c = entry_line(l.last());
        assert(l.last() == l[l.len() - 1]);
        lemma_text_lines(l.drop_last());
        lemma_entry_line(l.last());
        lemma_line_scan(c);
        lemma_scan_lines_concat(p, c.push('\n'), c.len() + 1int);
        assert(text_of(l) =~= p + c.push('\n'));
        assert(l.map_values(|e: (Seq<char>, u64)| entry_line(e)) =~= l.drop_last().map_values(|e: (Seq<char>, u64)| entry_line(e)) + seq![c]);
    } else {
        assert(l.map_values(|e: (Seq<char>, u64)| entry_line(e)) =~= Seq::<Seq<char>>::empty());
    }
}

proof fn lemma_load_listing(l: Seq<(Seq<char>, u64)>, n: int)
    requires
        forall|j: int| 0 <= j < l.len() ==> !(#[trigger] l[j]).0.contains('\n'),
        0 <= n <= l.len(),
    ensures
        load_lines(l.map_values(|e: (Seq<char>, u64)| entry_line(e)), n) == Some(listing_map(l.take(n))),
    decreases n,
{
    if n == 0 {
        assert(l.take(0).len() == 0);
    } else {
        lemma_load_listing(l, n - 1);
        lemma_entry_line(l[n - 1]);
        assert(l.take(n).drop_last() =~= l.take(n - 1));
        assert(l.take(n).last() == l[n - 1]);
    }
}

/// Saving a store as text and reading that text back gives the same mapping,
/// for names without a line break.
pub proof fn lemma_store_round_trip(s: &StateStore)
    requires
        s.wf(),
        forall|k: Seq<char>| s@.contains_key(k) ==> !k.contains('\n'),
    ensures
        load(text_of(s.listing())) == Some(s@),
{
    s.lemma_listing();
    let l = s.listing();
    assert forall|j: int| 0 <= j < l.len() implies !(#[trigger] l[j]).0.contains('\n') by {
        assert(s@.contains_key(l[j].0));
    }
    lemma_text_lines(l);
    lemma_load_listing(l, l.len() as int);
    assert(l.take(l.len() as int) =~= l);
}

} // verus!
