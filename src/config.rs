//! Routes: which destination ports each source port forwards to.
//!
//! A configuration is a sequence of lines `<source> -> <destination>`. Lines
//! that share a source port merge into one route whose destinations keep the
//! order of the lines; lines that do not have that form are skipped.
use vstd::prelude::*;

verus! {

/// Whether a character has Unicode's White_Space property.
pub uninterp spec fn white_space(c: char) -> bool;

/// Relies on `char::is_whitespace`: true exactly for the characters with the
/// White_Space property.
#[verifier::external_body]
fn is_white_space(c: char) -> (r: bool)
    ensures
        r == white_space(c),
{
    c.is_whitespace()
}

/// `s` without its leading white space.
pub open spec fn strip_start(s: Seq<char>) -> Seq<char>
    decreases s.len(),
{
    if s.len() > 0 && white_space(s[0]) {
        strip_start(s.drop_first())
    } else {
        s
    }
}

/// `s` without its trailing white space.
pub open spec fn strip_end(s: Seq<char>) -> Seq<char>
    decreases s.len(),
{
    if s.len() > 0 && white_space(s.last()) {
        strip_end(s.drop_last())
    } else {
        s
    }
}

/// `s` without white space at either end.
pub open spec fn trim(s: Seq<char>) -> Seq<char> {
    strip_end(strip_start(s))
}

/// A decimal digit.
pub open spec fn is_digit(c: char) -> bool {
    '0' <= c && c <= '9'
}

/// The value of a decimal digit.
pub open spec fn digit_value(c: char) -> nat {
    (c as int - '0' as int) as nat
}

/// The number that a string of decimal digits writes.
pub open spec fn digits_value(s: Seq<char>) -> nat
    decreases s.len(),
{
    if s.len() == 0 {
        0
    } else {
        digits_value(s.drop_last()) * 10 + digit_value(s.last())
    }
}

/// The digits of a number written with an optional leading `+`.
pub open spec fn unsigned_digits(s: Seq<char>) -> Seq<char> {
    if s.len() > 0 && s[0] == '+' {
        s.drop_first()
    } else {
        s
    }
}

/// The port that `s` writes: an optional `+` and at least one decimal digit,
/// of value at most 65535. Anything else writes no port.
pub open spec fn port_of(s: Seq<char>) -> Option<u16> {
    let d = unsigned_digits(s);
    if d.len() > 0 && (forall|i: int| 0 <= i < d.len() ==> is_digit(#[trigger] d[i]))
        && digits_value(d) <= u16::MAX {
        Some(digits_value(d) as u16)
    } else {
        None
    }
}

/// An arrow `->` starts at index `k` of `s`.
pub open spec fn arrow_at(s: Seq<char>, k: int) -> bool {
    0 <= k && k + 1 < s.len() && s[k] == '-' && s[k + 1] == '>'
}

/// The first arrow of `s` starts at index `k`.
pub open spec fn first_arrow(s: Seq<char>, k: int) -> bool {
    arrow_at(s, k) && forall|j: int| 0 <= j < k ==> !arrow_at(s, j)
}

/// The `(source, destination)` pair that a configuration line gives: the line
/// is split at its first arrow, and each side, trimmed of white space, must
/// write a port. Any other line gives nothing.
pub open spec fn line_pair(s: Seq<char>) -> Option<(u16, u16)> {
    if exists|k: int| first_arrow(s, k) {
        let k = choose|k: int| first_arrow(s, k);
        match (port_of(trim(s.take(k))), port_of(trim(s.skip(k + 2)))) {
            (Some(a), Some(b)) => Some((a, b)),
            _ => None,
        }
    } else {
        None
    }
}

/// The pairs that a sequence of lines gives, in line order.
pub open spec fn pairs_of(lines: Seq<Seq<char>>) -> Seq<(u16, u16)> {
    lines.filter_map(|l: Seq<char>| line_pair(l))
}

proof fn lemma_value_grows(s: Seq<char>, m: int)
    requires
        0 <= m <= s.len(),
    ensures
        digits_value(s.take(m)) <= digits_value(s),
    decreases s.len(),
{
    if m < s.len() {
        lemma_value_grows(s.drop_last(), m);
        assert(s.drop_last().take(m) =~= s.take(m));
    } else {
        assert(s.take(m) =~= s);
    }
}

/// The characters of `line`, in order.
fn chars_of(line: &str) -> (r: Vec<char>)
    ensures
        r@ == line@,
{
    let n = line.unicode_len();
    let mut r: Vec<char> = Vec::new();
    let mut i: usize = 0;
    while i < n
        invariant
            i <= n,
            n == line@.len(),
            r@ == line@.take(i as int),
        decreases n - i,
    {
        r.push(line.get_char(i));
        i = i + 1;
        assert(r@ =~= line@.take(i as int));
    }
    assert(line@.take(n as int) =~= line@);
    r
}

/// The bounds of `cs[lo..hi]` once white space is trimmed from both ends.
fn trim_bounds(cs: &Vec<char>, lo: usize, hi: usize) -> (r: (usize, usize))
    requires
        lo <= hi <= cs.len(),
    ensures
        lo <= r.0 <= r.1 <= hi,
        cs@.subrange(r.0 as int, r.1 as int) == trim(cs@.subrange(lo as int, hi as int)),
{
    let mut a: usize = lo;
    while a < hi && is_white_space(cs[a])
        invariant
            lo <= a <= hi <= cs.len(),
            strip_start(cs@.subrange(lo as int, hi as int)) == strip_start(
                cs@.subrange(a as int, hi as int),
            ),
        decreases hi - a,
    {
        assert(cs@.subrange(a as int, hi as int).drop_first() =~= cs@.subrange(
            a + 1,
            hi as int,
        ));
        a = a + 1;
    }
    let mut b: usize = hi;
    while b > a && is_white_space(cs[b - 1])
        invariant
            lo <= a <= b <= hi <= cs.len(),
            strip_start(cs@.subrange(lo as int, hi as int)) == cs@.subrange(a as int, hi as int),
            strip_end(cs@.subrange(a as int, hi as int)) == strip_end(
                cs@.subrange(a as int, b as int),
            ),
        decreases b - a,
    {
        assert(cs@.subrange(a as int, b as int).drop_last() =~= cs@.subrange(
            a as int,
            b - 1,
        ));
        b = b - 1;
    }
    (a, b)
}

/// The port that `cs[lo..hi]` writes, if any.
fn port_in(cs: &Vec<char>, lo: usize, hi: usize) -> (r: Option<u16>)
    requires
        lo <= hi <= cs.len(),
    ensures
        r == port_of(cs@.subrange(lo as int, hi as int)),
{
    let ghost s = cs@.subrange(lo as int, hi as int);
    let mut d: usize = lo;
    if lo < hi && cs[lo] == '+' {
        d = lo + 1;
        assert(s.drop_first() =~= cs@.subrange(d as int, hi as int));
    } else {
        assert(s =~= cs@.subrange(d as int, hi as int));
    }
    let ghost digits = cs@.subrange(d as int, hi as int);
    assert(unsigned_digits(s) == digits);
    if d == hi {
        return None;
    }
    let mut value: u32 = 0;
    let mut i: usize = d;
    while i < hi
        invariant
            d <= i <= hi <= cs.len(),
            digits == cs@.subrange(d as int, hi as int),
            unsigned_digits(cs@.subrange(lo as int, hi as int)) == digits,
            digits.len() > 0,
            forall|j: int| 0 <= j < i - d ==> is_digit(#[trigger] digits[j]),
            value == digits_value(digits.take(i - d)),
            value <= u16::MAX,
        decreases hi - i,
    {
        let c = cs[i];
        if !('0' <= c && c <= '9') {
            assert(!is_digit(digits[i - d]));
            return None;
        }
        let ghost before = digits.take(i - d);
        value = value * 10 + (c as u32 - '0' as u32);
        assert(digits.take(i - d + 1).drop_last() =~= before);
        i = i + 1;
        if value > u16::MAX as u32 {
            proof {
                if forall|j: int| 0 <= j < digits.len() ==> is_digit(#[trigger] digits[j]) {
                    lemma_value_grows(digits, i - d);
                }
            }
            return None;
        }
    }
    assert(digits.take(i - d) =~= digits);
    Some(value as u16)
}

/// The index at which the first arrow of `cs` starts, if it has one.
fn find_arrow(cs: &Vec<char>) -> (r: Option<usize>)
    ensures
        match r {
            Some(k) => first_arrow(cs@, k as int),
            None => forall|k: int| !arrow_at(cs@, k),
        },
{
    let n = cs.len();
    let mut k: usize = 0;
    while n > 0 && k < n - 1
        invariant
            n == cs.len(),
            forall|j: int| 0 <= j < k ==> !arrow_at(cs@, j),
        decreases n - k,
    {
        if cs[k] == '-' && cs[k + 1] == '>' {
            return Some(k);
        }
        k = k + 1;
    }
    None
}

/// The `(source, destination)` pair that a configuration line gives, if any.
pub fn parse_line(line: &str) -> (r: Option<(u16, u16)>)
    ensures
        r == line_pair(line@),
{
    let cs = chars_of(line);
    let n = cs.len();
    match find_arrow(&cs) {
        None => None,
        Some(k) => {
            proof {
                let c = choose|c: int| first_arrow(line@, c);
                assert(!(c < k) && !(k < c));
                assert(cs@.subrange(0, k as int) =~= line@.take(k as int));
                assert(cs@.subrange(k + 2, n as int) =~= line@.skip(k + 2));
            }
            let (a, b) = trim_bounds(&cs, 0, k);
            let source = port_in(&cs, a, b);
            let (c, e) = trim_bounds(&cs, k + 2, n);
            let destination = port_in(&cs, c, e);
            match (source, destination) {
                (Some(s), Some(t)) => Some((s, t)),
                _ => None,
            }
        },
    }
}

/// The table after a pair is added: its destination is appended to the route
/// of its source port, which is created if the table has none yet.
pub open spec fn merge(m: Map<u16, Seq<u16>>, source: u16, destination: u16) -> Map<u16, Seq<u16>> {
    if m.contains_key(source) {
        m.insert(source, m[source].push(destination))
    } else {
        m.insert(source, seq![destination])
    }
}

/// The table that adding `pairs` one after another to an empty table gives.
pub open spec fn table_of(pairs: Seq<(u16, u16)>) -> Map<u16, Seq<u16>>
    decreases pairs.len(),
{
    if pairs.len() == 0 {
        Map::empty()
    } else {
        merge(table_of(pairs.drop_last()), pairs.last().0, pairs.last().1)
    }
}

/// The destinations of the pairs whose source is `source`, in their order.
pub open spec fn destinations_for(pairs: Seq<(u16, u16)>, source: u16) -> Seq<u16> {
    pairs.filter_map(|p: (u16, u16)| if p.0 == source { Some(p.1) } else { None })
}

/// Every route of the table has at least one destination.
pub open spec fn routes_nonempty(m: Map<u16, Seq<u16>>) -> bool {
    forall|s: u16| #[trigger] m.contains_key(s) ==> m[s].len() > 0
}

/// Route merge: the table built from `pairs` has a route for exactly the
/// source ports that occur in them, and the route of each lists the
/// destinations of that port's pairs, in the order of the pairs.
pub proof fn lemma_route_merge(pairs: Seq<(u16, u16)>, source: u16)
    ensures
        table_of(pairs).contains_key(source) <==> destinations_for(pairs, source).len() > 0,
        table_of(pairs).contains_key(source) ==> table_of(pairs)[source] == destinations_for(
            pairs,
            source,
        ),
        routes_nonempty(table_of(pairs)),
    decreases pairs.len(),
{
    if pairs.len() > 0 {
        let rest = pairs.drop_last();
        lemma_route_merge(rest, source);
        assert forall|s: u16| #[trigger] table_of(pairs).contains_key(s) implies table_of(
            pairs,
        )[s].len() > 0 by {
            lemma_route_merge(rest, s);
        }
    }
}

/// One route: a source port and the destinations tried for it, in order.
pub struct Route {
    pub source: u16,
    pub destinations: Vec<u16>,
}

/// The routes of a configuration, one per source port.
pub struct RouteTable {
    routes: Vec<Route>,
    model: Ghost<Map<u16, Seq<u16>>>,
}

impl View for RouteTable {
    type V = Map<u16, Seq<u16>>;

    closed spec fn view(&self) -> Map<u16, Seq<u16>> {
        self.model@
    }
}

impl RouteTable {
    /// The routes list each source port once, and hold what the view maps it to.
    pub closed spec fn wf(&self) -> bool {
        &&& forall|i: int, j: int|
            0 <= i < j < self.routes.len() ==> self.routes[i].source != self.routes[j].source
        &&& forall|i: int|
            0 <= i < self.routes.len() ==> {
                &&& self.model@.contains_key(#[trigger] self.routes[i].source)
                &&& self.model@[self.routes[i].source] == self.routes[i].destinations@
            }
        &&& forall|s: u16| #[trigger]
            self.model@.contains_key(s) ==> exists|i: int|
                0 <= i < self.routes.len() && self.routes[i].source == s
        &&& routes_nonempty(self.model@)
    }

    /// A table without routes.
    pub fn new() -> (r: RouteTable)
        ensures
            r.wf(),
            r@ == Map::<u16, Seq<u16>>::empty(),
    {
        RouteTable { routes: Vec::new(), model: Ghost(Map::empty()) }
    }

    fn position(&self, source: u16) -> (r: Option<usize>)
        ensures
            match r {
                Some(j) => j < self.routes.len() && self.routes[j as int].source == source,
                None => forall|i: int| 0 <= i < self.routes.len() ==> self.routes[i].source != source,
            },
    {
        let n = self.routes.len();
        let mut j: usize = 0;
        while j < n
            invariant
                j <= n,
                n == self.routes.len(),
                forall|i: int| 0 <= i < j ==> self.routes[i].source != source,
            decreases n - j,
        {
            if self.routes[j].source == source {
                return Some(j);
            }
            j = j + 1;
        }
        None
    }

    /// Appends `destination` to the route of `source`, which is created when
    /// the table has none yet.
    pub fn add(&mut self, source: u16, destination: u16)
        requires
            old(self).wf(),
        ensures
            final(self).wf(),
            final(self)@ == merge(old(self)@, source, destination),
    {
        let ghost before = self.routes@;
        match self.position(source) {
            Some(j) => {
                let mut route = Route { source, destinations: Vec::new() };
                self.routes.set_and_swap(j, &mut route);
                route.destinations.push(destination);
                self.routes.set(j, route);
                self.model = Ghost(merge(self.model@, source, destination));
                assert forall|s: u16| #[trigger] self.model@.contains_key(s) implies exists|i: int|
                    0 <= i < self.routes.len() && self.routes[i].source == s by {
                    if s != source {
                        let i = choose|i: int| 0 <= i < before.len() && before[i].source == s;
                        assert(self.routes[i].source == s);
                    } else {
                        assert(self.routes[j as int].source == s);
                    }
                }
            },
            None => {
                let mut destinations: Vec<u16> = Vec::new();
                destinations.push(destination);
                self.routes.push(Route { source, destinations });
                self.model = Ghost(merge(self.model@, source, destination));
                assert forall|s: u16| #[trigger] self.model@.contains_key(s) implies exists|i: int|
                    0 <= i < self.routes.len() && self.routes[i].source == s by {
                    if s != source {
                        let i = choose|i: int| 0 <= i < before.len() && before[i].source == s;
                        assert(self.routes[i].source == s);
                    } else {
                        assert(self.routes[before.len() as int].source == s);
                    }
                }
            },
        }
    }

    /// The table that a configuration's lines describe: each line that gives
    /// a `(source, destination)` pair adds it, in line order.
    pub fn from_lines(lines: &Vec<String>) -> (r: RouteTable)
        ensures
            r.wf(),
            r@ == table_of(pairs_of(lines@.map_values(|l: String| l@))),
    {
        let ghost texts = lines@.map_values(|l: String| l@);
        let mut table = RouteTable::new();
        let n = lines.len();
        let mut i: usize = 0;
        while i < n
            invariant
                i <= n,
                n == lines.len(),
                texts == lines@.map_values(|l: String| l@),
                table.wf(),
                table@ == table_of(pairs_of(texts.take(i as int))),
            decreases n - i,
        {
            let pair = parse_line(lines[i].as_str());
            let ghost pairs = pairs_of(texts.take(i as int));
            proof {
                assert(texts.take(i + 1).drop_last() =~= texts.take(i as int));
                assert(texts.take(i + 1).last() == lines@[i as int]@);
            }
            if let Some((source, destination)) = pair {
                table.add(source, destination);
                let ghost p = (source, destination);
                assert(pairs + seq![p] =~= pairs.push(p));
                assert(pairs.push(p).drop_last() =~= pairs);
                assert(pairs_of(texts.take(i + 1)) == pairs.push(p));
            } else {
                assert(pairs_of(texts.take(i + 1)) == pairs);
            }
            i = i + 1;
        }
        assert(texts.take(n as int) =~= texts);
        table
    }

    /// The destinations of the route of `source`, if the table has one.
    pub fn lookup(&self, source: u16) -> (r: Option<&Vec<u16>>)
        requires
            self.wf(),
        ensures
            match r {
                Some(d) => self@.contains_key(source) && d@ == self@[source],
                None => !self@.contains_key(source),
            },
    {
        match self.position(source) {
            Some(j) => Some(&self.routes[j].destinations),
            None => None,
        }
    }

    /// All routes, each source port once; every route has a destination.
    pub fn routes(&self) -> (r: &Vec<Route>)
        requires
            self.wf(),
        ensures
            forall|i: int|
                0 <= i < r.len() ==> {
                    &&& self@.contains_key(#[trigger] r[i].source)
                    &&& self@[r[i].source] == r[i].destinations@
                    &&& r[i].destinations@.len() > 0
                },
            forall|i: int, j: int| 0 <= i < j < r.len() ==> r[i].source != r[j].source,
            forall|s: u16| #[trigger]
                self@.contains_key(s) ==> exists|i: int| 0 <= i < r.len() && r[i].source == s,
    {
        &self.routes
    }
}

} // verus!
