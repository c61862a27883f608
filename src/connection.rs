//! The network manager's view of the active connection, and whether a
//! network is the one currently associated.

use vstd::prelude::*;
use crate::text::{chars_of, find_char, index_of, lemma_index_of_bounds, trim, trim_bounds};

verus! {

/// One record of the network manager's report: whether the connection is
/// active, and the name of its network.
#[derive(Debug)]
pub struct ActiveConnection {
    pub active: bool,
    pub ssid: String,
}

impl View for ActiveConnection {
    type V = (bool, Seq<char>);

    open spec fn view(&self) -> (bool, Seq<char>) {
        (self.active, self.ssid@)
    }
}

/// The lines of `s`: the text between line breaks, where a break at the very
/// end closes the last line rather than opening an empty one.
pub open spec fn lines(s: Seq<char>) -> Seq<Seq<char>>
    decreases s.len(),
{
    if s.len() == 0 {
        seq![]
    } else {
        let k = index_of(s, '\n');
        if k < s.len() {
            seq![s.subrange(0, k as int)] + lines(s.subrange(k + 1int, s.len() as int))
        } else {
            seq![s]
        }
    }
}

/// The token that marks an active record.
pub open spec fn yes_token() -> Seq<char> {
    seq!['y', 'e', 's']
}

/// A record line `<active>:<ssid>` is active when, once trimmed, the text
/// before its first colon is `yes`.
pub open spec fn line_active(line: Seq<char>) -> bool {
    let t = trim(line);
    let k = index_of(t, ':');
    k < t.len() && t.subrange(0, k as int) == yes_token()
}

/// The network name of a record line: what follows the first colon of the
/// trimmed line, empty when there is no colon.
pub open spec fn line_ssid(line: Seq<char>) -> Seq<char> {
    let t = trim(line);
    let k = index_of(t, ':');
    if k < t.len() {
        t.subrange(k + 1int, t.len() as int)
    } else {
        Seq::empty()
    }
}

/// The record that a line reads as.
pub open spec fn record_of(e: ActiveConnection, line: Seq<char>) -> bool {
    e.active == line_active(line) && e.ssid@ == line_ssid(line)
}

/// The network named `ssid` is the current one: the first record of the
/// snapshot is active and names it exactly.
pub open spec fn connected(snapshot: Seq<ActiveConnection>, ssid: Seq<char>) -> bool {
    snapshot.len() > 0 && snapshot[0].active && snapshot[0].ssid@ == ssid
}

/// Reads the record held in `s[from..to]`.
fn parse_record(text: &str, s: &Vec<char>, from: usize, to: usize) -> (r: ActiveConnection)
    requires
        s@ == text@,
        from <= to <= s@.len(),
    ensures
        record_of(r, s@.subrange(from as int, to as int)),
{
    let ghost line = s@.subrange(from as int, to as int);
    let (a, b) = trim_bounds(s, from, to);
    let k = find_char(s, a, b, ':');
    proof {
        lemma_index_of_bounds(trim(line), ':');
    }
    let has_colon = k < b;
    let active = has_colon && k - a == 3 && s[a] == 'y' && s[a + 1] == 'e' && s[a + 2] == 's';
    let ssid = if has_colon {
        String::from_str(text.substring_char(k + 1, b))
    } else {
        String::new()
    };
    proof {
        let t = trim(line);
        let kk = index_of(t, ':');
        assert(t == s@.subrange(a as int, b as int));
        if has_colon {
            assert(t.subrange(kk + 1int, t.len() as int) =~= s@.subrange(k + 1, b as int));
            if kk == 3 {
                assert(t.subrange(0, 3) =~= seq![s@[a as int], s@[a + 1], s@[a + 2]]);
            }
        }
    }
    ActiveConnection { active, ssid }
}

/// Reads the network manager's report, one record per line.
pub fn parse_snapshot(text: &str) -> (r: Vec<ActiveConnection>)
    ensures
        r@.len() == lines(text@).len(),
        forall|i: int| 0 <= i < r@.len() ==> record_of(#[trigger] r@[i], lines(text@)[i]),
{
    let s = chars_of(text);
    let n = s.len();
    let mut r: Vec<ActiveConnection> = Vec::new();
    let mut start: usize = 0;
    let ghost mut done: Seq<Seq<char>> = seq![];
    assert(s@.subrange(0, n as int) =~= s@);
    assert(lines(text@) =~= done + lines(s@.subrange(0, n as int)));
    while start < n
        invariant
            n == s@.len(),
            s@ == text@,
            start <= n,
            lines(text@) == done + lines(s@.subrange(start as int, n as int)),
            r@.len() == done.len(),
            forall|i: int| 0 <= i < r@.len() ==> record_of(#[trigger] r@[i], done[i]),
        decreases n - start,
    {
        let k = find_char(&s, start, n, '\n');
        let ghost rest = s@.subrange(start as int, n as int);
        proof {
            lemma_index_of_bounds(rest, '\n');
        }
        r.push(parse_record(text, &s, start, k));
        proof {
            assert(rest.subrange(0, k - start) =~= s@.subrange(start as int, k as int));
            done = done.push(s@.subrange(start as int, k as int));
        }
        if k < n {
            proof {
                assert(rest.subrange(k - start + 1, rest.len() as int) =~= s@.subrange(
                    k + 1,
                    n as int,
                ));
                assert(lines(rest) == seq![s@.subrange(start as int, k as int)] + lines(
                    s@.subrange(k + 1, n as int),
                ));
                assert(lines(text@) =~= done + lines(s@.subrange(k + 1, n as int)));
            }
            start = k + 1;
        } else {
            proof {
                assert(rest =~= s@.subrange(start as int, k as int));
                assert(s@.subrange(n as int, n as int) =~= Seq::<char>::empty());
                assert(lines(text@) =~= done + lines(s@.subrange(n as int, n as int)));
            }
            start = n;
        }
    }
    proof {
        assert(s@.subrange(n as int, n as int) =~= Seq::<char>::empty());
        assert(lines(text@) =~= done);
    }
    r
}

/// Whether the network named `ssid` is the one currently associated: only
/// the first record of the snapshot is consulted.
pub fn is_connected(snapshot: &Vec<ActiveConnection>, ssid: &str) -> (r: bool)
    ensures
        r == connected(snapshot@, ssid@),
{
    if snapshot.len() == 0 {
        return false;
    }
    let first = &snapshot[0];
    let target = String::from_str(ssid);
    first.active && first.ssid == target
}

} // verus!
