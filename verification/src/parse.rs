//! Parser for the remote command's output.
//!
//! The station dump is newline-delimited text; every line that starts with
//! `Station` names one associated device in its second space-separated
//! field. The parser collects those fields, upper-cased, in line order —
//! that upper-casing is the one canonicalization device identifiers go
//! through at ingestion.

use crate::notify::push_char;
use crate::state::snapshot_view;
use vstd::prelude::*;
use vstd::string::StrSliceExecFns;

verus! {

/// The ASCII upper-case fold applied to identifier characters: `a` through
/// `z` become `A` through `Z`; every other character is unchanged.
pub open spec fn upper_char(c: char) -> char {
    if 97 <= c as u32 && c as u32 <= 122 {
        (c as u32 - 32) as char
    } else {
        c
    }
}

/// A character sequence folded to ASCII upper case.
pub open spec fn upper_seq(s: Seq<char>) -> Seq<char> {
    s.map_values(|c: char| upper_char(c))
}

fn upper_char_exec(c: char) -> (r: char)
    ensures
        r == upper_char(c),
{
    let u: u32 = c as u32;
    if 97 <= u && u <= 122 {
        let b: u8 = (u - 32) as u8;
        proof {
            assert(b as u32 == u - 32) by (bit_vector)
                requires
                    97 <= u && u <= 122 && b == (u - 32) as u8,
            ;
        }
        b as char
    } else {
        c
    }
}

/// The position of the first `c` at or after `from`, or the length when
/// there is none.
pub open spec fn find_char(s: Seq<char>, c: char, from: int) -> int
    decreases s.len() - from,
{
    if !(0 <= from < s.len()) {
        s.len() as int
    } else if s[from] == c {
        from
    } else {
        find_char(s, c, from + 1)
    }
}

proof fn lemma_find_char(s: Seq<char>, c: char, from: int)
    requires
        0 <= from <= s.len(),
    ensures
        from <= find_char(s, c, from) <= s.len(),
        find_char(s, c, from) < s.len() ==> s[find_char(s, c, from)] == c,
        forall|j: int| from <= j < find_char(s, c, from) ==> s[j] != c,
    decreases s.len() - from,
{
    if from < s.len() && s[from] != c {
        lemma_find_char(s, c, from + 1);
    }
}

fn find_char_str(s: &str, n: usize, c: char, from: usize) -> (r: usize)
    requires
        n == s@.len(),
        from <= n,
    ensures
        r == find_char(s@, c, from as int),
{
    let mut i = from;
    while i < n
        invariant
            from <= i <= n,
            n == s@.len(),
            find_char(s@, c, from as int) == find_char(s@, c, i as int),
        decreases n - i,
    {
        if s.get_char(i) == c {
            return i;
        }
        i = i + 1;
    }
    i
}

/// A line with a terminating carriage return taken off; line splitting
/// strips one when the line was ended by a newline.
pub open spec fn strip_cr(line: Seq<char>) -> Seq<char> {
    if line.len() > 0 && line.last() == '\r' {
        line.drop_last()
    } else {
        line
    }
}

/// The device named by one line, when the line starts with `Station` and
/// has a second space-separated field: that field, upper-cased.
pub open spec fn station_token(line: Seq<char>) -> Option<Seq<char>> {
    if line.len() >= 7 && line.subrange(0, 7) == "Station"@ {
        let i = find_char(line, ' ', 0);
        if i == line.len() {
            None
        } else {
            Some(upper_seq(line.subrange(i + 1, find_char(line, ' ', i + 1))))
        }
    } else {
        None
    }
}

/// The devices named from position `pos` of the output onward, line by
/// line.
pub open spec fn parse_from(s: Seq<char>, pos: int) -> Seq<Seq<char>>
    decreases s.len() - pos,
    when 0 <= pos
    via parse_from_decreases
{
    if pos >= s.len() {
        Seq::empty()
    } else {
        let k = find_char(s, '\n', pos);
        let line = if k < s.len() {
            strip_cr(s.subrange(pos, k))
        } else {
            s.subrange(pos, k)
        };
        let head = match station_token(line) {
            Some(t) => seq![t],
            None => Seq::<Seq<char>>::empty(),
        };
        head + parse_from(
            s,
            if k < s.len() {
                k + 1
            } else {
                k
            },
        )
    }
}

#[via_fn]
proof fn parse_from_decreases(s: Seq<char>, pos: int) {
    if pos < s.len() {
        lemma_find_char(s, '\n', pos);
    }
}

/// The devices listed in one run of the remote command's output: for every
/// line that starts with `Station`, the second space-separated field,
/// upper-cased, in line order.
pub open spec fn parse_spec(s: Seq<char>) -> Seq<Seq<char>> {
    parse_from(s, 0)
}

fn has_station_prefix(line: &str, n: usize) -> (r: bool)
    requires
        n == line@.len(),
    ensures
        r == (line@.len() >= 7 && line@.subrange(0, 7) == "Station"@),
{
    proof {
        reveal_strlit("Station");
    }
    if n < 7 {
        return false;
    }
    let mut i: usize = 0;
    while i < 7
        invariant
            i <= 7,
            n == line@.len(),
            n >= 7,
            forall|j: int| 0 <= j < i ==> line@[j] == "Station"@[j],
        decreases 7 - i,
    {
        proof {
            reveal_strlit("Station");
        }
        if line.get_char(i) != "Station".get_char(i) {
            proof {
                assert(line@.subrange(0, 7)[i as int] != "Station"@[i as int]);
            }
            return false;
        }
        i = i + 1;
    }
    proof {
        assert(line@.subrange(0, 7) =~= "Station"@);
    }
    true
}

fn upper_substring(line: &str, n: usize, from: usize, to: usize) -> (r: String)
    requires
        n == line@.len(),
        from <= to,
        to <= n,
    ensures
        r@ == upper_seq(line@.subrange(from as int, to as int)),
{
    let mut out = String::new();
    proof {
        assert(out@ =~= upper_seq(line@.subrange(from as int, from as int)));
    }
    let mut i = from;
    while i < to
        invariant
            from <= i <= to,
            to <= n,
            n == line@.len(),
            out@ == upper_seq(line@.subrange(from as int, i as int)),
        decreases to - i,
    {
        let c = line.get_char(i);
        push_char(&mut out, upper_char_exec(c));
        proof {
            assert(out@ =~= upper_seq(line@.subrange(from as int, i as int + 1)));
        }
        i = i + 1;
    }
    out
}

/// Parse one run of the remote command's output into the snapshot of
/// currently associated device identifiers.
pub fn parse_station_dump(s: &str) -> (devices: Vec<String>)
    ensures
        snapshot_view(devices@) == parse_spec(s@),
{
    let n = s.unicode_len();
    let mut devices: Vec<String> = Vec::new();
    let mut pos: usize = 0;
    proof {
        assert(snapshot_view(devices@) =~= Seq::<Seq<char>>::empty());
        assert(Seq::<Seq<char>>::empty() + parse_from(s@, 0) =~= parse_from(s@, 0));
    }
    while pos < n
        invariant
            pos <= n,
            n == s@.len(),
            parse_spec(s@) == snapshot_view(devices@) + parse_from(s@, pos as int),
        decreases n - pos,
    {
        let ghost dev0 = snapshot_view(devices@);
        let k = find_char_str(s, n, '\n', pos);
        proof {
            lemma_find_char(s@, '\n', pos as int);
        }
        let raw = s.substring_char(pos, k);
        let rawn = k - pos;
        let terminated = k < n;
        let stripped = terminated && rawn > 0 && raw.get_char(rawn - 1) == '\r';
        let line = if stripped {
            raw.substring_char(0, rawn - 1)
        } else {
            raw
        };
        let ln = if stripped {
            rawn - 1
        } else {
            rawn
        };
        let ghost lspec = if k < s@.len() {
            strip_cr(s@.subrange(pos as int, k as int))
        } else {
            s@.subrange(pos as int, k as int)
        };
        proof {
            if stripped {
                assert(raw@.last() == '\r');
                assert(line@ =~= strip_cr(s@.subrange(pos as int, k as int)));
            } else {
                if terminated && raw@.len() > 0 {
                    assert(raw@.last() != '\r');
                }
            }
            assert(line@ == lspec);
            assert(ln == line@.len());
        }
        if has_station_prefix(line, ln) {
            let i = find_char_str(line, ln, ' ', 0);
            proof {
                lemma_find_char(line@, ' ', 0);
            }
            if i < ln {
                let j = find_char_str(line, ln, ' ', i + 1);
                proof {
                    lemma_find_char(line@, ' ', i as int + 1);
                }
                let tok = upper_substring(line, ln, i + 1, j);
                proof {
                    assert(station_token(lspec) == Some(tok@));
                }
                devices.push(tok);
                proof {
                    assert(snapshot_view(devices@) =~= dev0.push(tok@));
                    assert(dev0.push(tok@) =~= dev0 + seq![tok@]);
                }
            } else {
                proof {
                    assert(i == ln);
                    assert(station_token(lspec) is None);
                }
            }
        } else {
            proof {
                assert(station_token(lspec) is None);
            }
        }
        proof {
            let nextpos: int = if k < n {
                k as int + 1
            } else {
                k as int
            };
            match station_token(lspec) {
                Some(t) => {
                    assert(parse_from(s@, pos as int) == seq![t] + parse_from(s@, nextpos));
                    assert(dev0 + (seq![t] + parse_from(s@, nextpos)) =~= (dev0 + seq![t])
                        + parse_from(s@, nextpos));
                },
                None => {
                    assert(parse_from(s@, pos as int) == Seq::<Seq<char>>::empty() + parse_from(
                        s@,
                        nextpos,
                    ));
                    assert(dev0 + (Seq::<Seq<char>>::empty() + parse_from(s@, nextpos)) =~= dev0
                        + parse_from(s@, nextpos));
                },
            }
        }
        pos = if k < n {
            k + 1
        } else {
            n
        };
    }
    proof {
        assert(parse_from(s@, pos as int) =~= Seq::<Seq<char>>::empty());
        assert(snapshot_view(devices@) + Seq::<Seq<char>>::empty() =~= snapshot_view(devices@));
    }
    devices
}

} // verus!
