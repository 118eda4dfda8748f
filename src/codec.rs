//! The textual share format: `K-x-base64(data)[-base64(crc24)]`, and the
//! collection of a consistent set of shares from such lines.
use vstd::prelude::*;
use crate::error::{other_io_err, pie2io, Error, ErrorKind};
use crate::text::{chars_of, dec_str, dec_u8, parse_u8, push_decimal, split, split_spec, string_of, trim, trim_spec};

verus! {

/// What `crc24::hash_raw` computes on `msg`: the OpenPGP CRC-24.
pub uninterp spec fn crc24_of(msg: Seq<u8>) -> u32;

/// What `ToBase64::to_base64` yields on `d`, standard alphabet, no padding.
pub uninterp spec fn base64_of(d: Seq<u8>) -> Seq<char>;

/// What `FromBase64::from_base64` yields on `s`: the bytes, or `None` where it fails.
pub uninterp spec fn unbase64_of(s: Seq<char>) -> Option<Seq<u8>>;

/// Relies on `crc24::hash_raw`: the CRC-24 of `msg`, which the hasher masks to 24 bits.
#[verifier::external_body]
fn crc24_hash(msg: &[u8]) -> (r: u32)
    ensures
        r == crc24_of(msg@),
        r < 0x100_0000,
{
    crc24::hash_raw(msg)
}

/// A character of the standard base64 alphabet.
pub open spec fn is_b64_char(c: char) -> bool {
    ('A' <= c && c <= 'Z') || ('a' <= c && c <= 'z') || ('0' <= c && c <= '9') || c == '+' || c == '/'
}

/// Relies on rustc_serialize's `ToBase64::to_base64` with the standard character set,
/// padding off and no line breaks: four characters per three bytes, rounded up, all of
/// the alphabet, which `FromBase64::from_base64` reads back to the same bytes.
#[verifier::external_body]
fn to_base64(d: &[u8]) -> (r: String)
    ensures
        r@ == base64_of(d@),
        r@.len() == (4 * d@.len() + 2) / 3,
        forall|i: int| 0 <= i < r@.len() ==> is_b64_char(#[trigger] r@[i]),
        unbase64_of(r@) == Some(d@),
{
    let config = rustc_serialize::base64::Config { pad: false, ..rustc_serialize::base64::STANDARD };
    rustc_serialize::base64::ToBase64::to_base64(d, config)
}

/// Relies on rustc_serialize's `FromBase64::from_base64` on the text of `s`.
#[verifier::external_body]
fn from_base64(s: &Vec<char>) -> (r: Option<Vec<u8>>)
    ensures
        r matches Some(v) ==> unbase64_of(s@) == Some(v@),
        r is None ==> unbase64_of(s@) is None,
{
    let text: String = s.iter().collect();
    rustc_serialize::base64::FromBase64::from_base64(text.as_str()).ok()
}

/// The 24-bit value `v` as three bytes, most significant first.
pub open spec fn be3(v: u32) -> Seq<u8> {
    seq![((v >> 16u32) & 0xFFu32) as u8, ((v >> 8u32) & 0xFFu32) as u8, (v & 0xFFu32) as u8]
}

/// The checksum of a share: CRC-24 over `k`, `x` and the data, big-endian.
pub open spec fn checksum(k: u8, x: u8, data: Seq<u8>) -> Seq<u8> {
    be3(crc24_of(seq![k, x] + data))
}

/// Computes the CRC-24 over the bytes `k`, `x`, then `octets`.
pub fn crc24_as_bytes(k: u8, x: u8, octets: &[u8]) -> (r: [u8; 3])
    ensures
        r@ == checksum(k, x, octets@),
{
    let mut msg: Vec<u8> = Vec::new();
    msg.push(k);
    msg.push(x);
    let mut i: usize = 0;
    while i < octets.len()
        invariant
            i <= octets@.len(),
            msg@ =~= seq![k, x] + octets@.take(i as int),
        decreases octets@.len() - i,
    {
        msg.push(octets[i]);
        i = i + 1;
    }
    assert(octets@.take(i as int) =~= octets@);
    let v = crc24_hash(msg.as_slice());
    let r = [((v >> 16u32) & 0xFFu32) as u8, ((v >> 8u32) & 0xFFu32) as u8, (v & 0xFFu32) as u8];
    assert(r@ =~= checksum(k, x, octets@));
    r
}

/// The line for share `x` of `k` with payload `data`, with or without a checksum.
pub open spec fn share_line(k: u8, x: u8, data: Seq<u8>, with_checksum: bool) -> Seq<char> {
    let base = dec_str(k) + seq!['-'] + dec_str(x) + seq!['-'] + base64_of(data);
    if with_checksum {
        base + seq!['-'] + base64_of(checksum(k, x, data))
    } else {
        base
    }
}

/// The base64 text `b` of `d` reads back to `d` and holds only alphabet characters.
pub open spec fn b64_ok(b: Seq<char>, d: Seq<u8>) -> bool {
    &&& unbase64_of(b) == Some(d)
    &&& forall|i: int| 0 <= i < b.len() ==> is_b64_char(#[trigger] b[i])
}

/// A line written by `format_share` parses back to its share.
pub proof fn lemma_line_parses(k: u8, x: u8, data: Seq<u8>, with_checksum: bool)
    requires
        k >= 1,
        x >= 1,
        b64_ok(base64_of(data), data),
        with_checksum ==> b64_ok(base64_of(checksum(k, x, data)), checksum(k, x, data)) && base64_of(
            checksum(k, x, data),
        ).len() == 4,
    ensures
        parse_line_spec(share_line(k, x, data, with_checksum)) == Ok::<(u8, u8, Seq<u8>), ErrorKind>(
            (k, x, data),
        ),
{
    let dk = dec_str(k);
    let dx = dec_str(x);
    let bd = base64_of(data);
    let bc = base64_of(checksum(k, x, data));
    crate::text::lemma_decimal_round_trip(k);
    crate::text::lemma_decimal_round_trip(x);
    crate::text::lemma_split_none(dk, '-');
    crate::text::lemma_split_append(dk, dx, '-');
    crate::text::lemma_split_append(dk + seq!['-'] + dx, bd, '-');
    let base = dk + seq!['-'] + dx + seq!['-'] + bd;
    let line = share_line(k, x, data, with_checksum);
    assert(line[0] == dk[0]);
    if with_checksum {
        crate::text::lemma_split_append(base, bc, '-');
        assert(line.last() == bc[3]);
    } else if bd.len() > 0 {
        assert(line.last() == bd[bd.len() - 1]);
    }
    crate::text::lemma_trim_none(line);
}

fn push_all(out: &mut Vec<char>, s: &Vec<char>)
    ensures
        final(out)@ == old(out)@ + s@,
{
    let mut i: usize = 0;
    while i < s.len()
        invariant
            i <= s@.len(),
            out@ =~= old(out)@ + s@.take(i as int),
        decreases s@.len() - i,
    {
        out.push(s[i]);
        i = i + 1;
    }
    assert(s@.take(i as int) =~= s@);
}

/// Writes share `x` of `k` as a line of text.
///
/// With K and x at least one, the line parses back to `(k, x, data)`.
pub fn format_share(k: u8, x: u8, data: &[u8], with_checksum: bool) -> (r: String)
    ensures
        r@ == share_line(k, x, data@, with_checksum),
        k >= 1 && x >= 1 ==> parse_line_spec(r@) == Ok::<(u8, u8, Seq<u8>), ErrorKind>(
            (k, x, data@),
        ),
        base64_of(data@).len() == (4 * data@.len() + 2) / 3,
        with_checksum ==> base64_of(checksum(k, x, data@)).len() == 4,
{
    let mut out: Vec<char> = Vec::new();
    push_decimal(&mut out, k);
    out.push('-');
    push_decimal(&mut out, x);
    out.push('-');
    let b = to_base64(data);
    push_all(&mut out, &chars_of(b.as_str()));
    if with_checksum {
        let crc = crc24_as_bytes(k, x, data);
        out.push('-');
        let cb = to_base64(&crc);
        assert(crc@.len() == 3);
        push_all(&mut out, &chars_of(cb.as_str()));
    }
    assert(out@ =~= share_line(k, x, data@, with_checksum));
    proof {
        if k >= 1 && x >= 1 {
            lemma_line_parses(k, x, data@, with_checksum);
        }
    }
    string_of(&out)
}

/// What a non-blank line parses to: `(k, x, data)`, or the kind of error it gives.
pub open spec fn parse_line_spec(line: Seq<char>) -> Result<(u8, u8, Seq<u8>), ErrorKind> {
    let parts = split_spec(trim_spec(line), '-');
    if parts.len() < 3 || parts.len() > 4 {
        Err(ErrorKind::ShareParseError)
    } else {
        match (dec_u8(parts[0]), dec_u8(parts[1])) {
            (Some(k), Some(x)) => {
                if k < 1 || x < 1 {
                    Err(ErrorKind::ShareParseError)
                } else {
                    match unbase64_of(parts[2]) {
                        None => Err(ErrorKind::ShareParseError),
                        Some(data) => {
                            if parts.len() == 3 {
                                Ok((k, x, data))
                            } else if parts[3].len() != 4 {
                                Err(ErrorKind::ShareParseError)
                            } else {
                                match unbase64_of(parts[3]) {
                                    None => Err(ErrorKind::ShareParseError),
                                    Some(c) => {
                                        if c == checksum(k, x, data) {
                                            Ok((k, x, data))
                                        } else {
                                            Err(ErrorKind::ChecksumMismatch)
                                        }
                                    },
                                }
                            }
                        },
                    }
                }
            },
            _ => Err(ErrorKind::ShareParseError),
        }
    }
}

fn parse_error(descr: &'static str) -> (e: Error)
    ensures
        e.kind == ErrorKind::ShareParseError,
{
    other_io_err(ErrorKind::ShareParseError, descr, None)
}

/// Parses one line: `None` for a blank line, else the share's `(k, x, data)`.
pub fn parse_share_line(line: &str) -> (r: Result<Option<(u8, u8, Vec<u8>)>, Error>)
    ensures
        trim_spec(line@).len() == 0 ==> r matches Ok(None),
        trim_spec(line@).len() != 0 ==> match parse_line_spec(line@) {
            Ok((k, x, d)) => r matches Ok(Some((k2, x2, d2))) && k2 == k && x2 == x && d2@ == d,
            Err(kind) => r matches Err(e) && e.kind == kind,
        },
{
    let t = trim(&chars_of(line));
    if t.len() == 0 {
        return Ok(None);
    }
    let parts = split(&t, '-');
    if parts.len() < 3 || parts.len() > 4 {
        return Err(parse_error("Share parse error: Expected 3 or 4 parts separated by a minus sign"));
    }
    let k = match parse_u8(&parts[0]) {
        Ok(v) => v,
        Err(reason) => return Err(pie2io(ErrorKind::ShareParseError, reason)),
    };
    let x = match parse_u8(&parts[1]) {
        Ok(v) => v,
        Err(reason) => return Err(pie2io(ErrorKind::ShareParseError, reason)),
    };
    if k < 1 || x < 1 {
        return Err(parse_error("Share parse error: Illegal K,N parameters"));
    }
    let data = match from_base64(&parts[2]) {
        Some(d) => d,
        None => return Err(parse_error("Share parse error: Base64 decoding of data block failed")),
    };
    if parts.len() == 4 {
        if parts[3].len() != 4 {
            return Err(parse_error("Share parse error: Checksum part is expected to be four characters"));
        }
        let crc_bytes = match from_base64(&parts[3]) {
            Some(c) => c,
            None => return Err(parse_error("Share parse error: Base64 decoding of checksum failed")),
        };
        let mine = crc24_as_bytes(k, x, data.as_slice());
        let same = crc_bytes.len() == 3 && crc_bytes[0] == mine[0] && crc_bytes[1] == mine[1]
            && crc_bytes[2] == mine[2];
        if !same {
            proof {
                if crc_bytes@.len() == 3 {
                    assert(crc_bytes@ != mine@);
                }
            }
            return Err(other_io_err(ErrorKind::ChecksumMismatch, "Share parse error: Checksum mismatch", None));
        }
        assert(crc_bytes@ =~= mine@);
    }
    Ok(Some((k, x, data)))
}

/// The state of a decode: the first accepted `(K, payload length)` and the accepted
/// shares `(x, data)`, in the order first seen.
pub type Collected = (Option<(u8, nat)>, Seq<(u8, Seq<u8>)>);

pub open spec fn has_x(shares: Seq<(u8, Seq<u8>)>, x: u8) -> bool {
    exists|i: int| 0 <= i < shares.len() && (#[trigger] shares[i]).0 == x
}

/// Accepting a parsed share: it must agree with the first on K and on length; a share
/// whose x was seen already changes nothing.
pub open spec fn accept(st: Collected, k: u8, x: u8, data: Seq<u8>) -> Result<Collected, ErrorKind> {
    match st.0 {
        Some((ck, cl)) if ck != k || cl != data.len() => Err(ErrorKind::IncompatibleShares),
        _ => Ok(
            (
                Some((k, data.len())),
                if has_x(st.1, x) {
                    st.1
                } else {
                    st.1.push((x, data))
                },
            ),
        ),
    }
}

/// Feeding one line: blank lines are skipped.
pub open spec fn step(st: Collected, line: Seq<char>) -> Result<Collected, ErrorKind> {
    if trim_spec(line).len() == 0 {
        Ok(st)
    } else {
        match parse_line_spec(line) {
            Err(e) => Err(e),
            Ok((k, x, d)) => accept(st, k, x, d),
        }
    }
}

/// K distinct shares have been accepted.
pub open spec fn complete(st: Collected) -> bool {
    st.0 matches Some((k, _)) && st.1.len() == k
}

/// Feeding lines until K distinct shares are in, an error, or the end of the input.
pub open spec fn run(st: Collected, lines: Seq<Seq<char>>) -> Result<Collected, ErrorKind>
    decreases lines.len(),
{
    if complete(st) {
        Ok(st)
    } else if lines.len() == 0 {
        Err(ErrorKind::NotEnoughShares)
    } else {
        match step(st, lines[0]) {
            Err(e) => Err(e),
            Ok(next) => run(next, lines.drop_first()),
        }
    }
}

pub open spec fn start() -> Collected {
    (None, Seq::empty())
}

/// A state that accepting can reach: distinct x values, one payload length, at most K shares.
pub open spec fn collected_wf(st: Collected) -> bool {
    &&& st.0 is None ==> st.1.len() == 0
    &&& st.0 matches Some((k, l)) ==> {
        &&& 1 <= k
        &&& st.1.len() <= k
        &&& forall|i: int| 0 <= i < st.1.len() ==> (#[trigger] st.1[i]).1.len() == l
    }
    &&& forall|i: int, j: int|
        0 <= i < st.1.len() && 0 <= j < st.1.len() && i != j ==> st.1[i].0 != st.1[j].0
}

/// Shares collected from lines of text.
pub struct ShareSet {
    pub k_len: Option<(u8, usize)>,
    pub shares: Vec<(u8, Vec<u8>)>,
}

impl ShareSet {
    pub open spec fn model(&self) -> Collected {
        (
            match self.k_len {
                None => None,
                Some((k, l)) => Some((k, l as nat)),
            },
            self.shares@.map_values(|p: (u8, Vec<u8>)| (p.0, p.1@)),
        )
    }

    pub open spec fn wf(&self) -> bool {
        collected_wf(self.model())
    }

    pub fn new() -> (r: ShareSet)
        ensures
            r.model() == start(),
            r.wf(),
    {
        let r = ShareSet { k_len: None, shares: Vec::new() };
        assert(r.model().1 =~= Seq::<(u8, Seq<u8>)>::empty());
        r
    }

    /// True once K shares with distinct x values are in.
    pub fn is_complete(&self) -> (r: bool)
        ensures
            r == complete(self.model()),
    {
        match self.k_len {
            None => false,
            Some((k, _)) => self.shares.len() == k as usize,
        }
    }

    /// Accepts a parsed share.
    pub fn add_share(&mut self, k: u8, x: u8, data: Vec<u8>) -> (r: Result<(), Error>)
        requires
            old(self).wf(),
            !complete(old(self).model()),
            k >= 1,
        ensures
            match accept(old(self).model(), k, x, data@) {
                Ok(st) => r is Ok && final(self).model() == st && final(self).wf(),
                Err(kind) => r matches Err(e) && e.kind == kind,
            },
    {
        let ghost m = self.model().1;
        match self.k_len {
            Some((ck, cl)) => {
                if ck != k || cl != data.len() {
                    return Err(other_io_err(ErrorKind::IncompatibleShares, "Incompatible shares", None));
                }
            },
            None => {},
        }
        self.k_len = Some((k, data.len()));
        let mut i: usize = 0;
        let mut seen = false;
        while i < self.shares.len()
            invariant
                i <= self.shares@.len(),
                m == self.shares@.map_values(|p: (u8, Vec<u8>)| (p.0, p.1@)),
                seen == (exists|j: int| 0 <= j < i && (#[trigger] m[j]).0 == x),
            decreases self.shares@.len() - i,
        {
            assert(m[i as int].0 == self.shares@[i as int].0);
            if self.shares[i].0 == x {
                seen = true;
            }
            i = i + 1;
        }
        if !seen {
            self.shares.push((x, data));
            assert(self.model().1 =~= m.push((x, data@)));
        }
        Ok(())
    }

    /// Feeds one line of text; `Ok(true)` once the set is complete.
    pub fn add_line(&mut self, line: &str) -> (r: Result<bool, Error>)
        requires
            old(self).wf(),
            !complete(old(self).model()),
        ensures
            match step(old(self).model(), line@) {
                Ok(st) => r == Ok::<bool, Error>(complete(st)) && final(self).model() == st && final(self).wf(),
                Err(kind) => r matches Err(e) && e.kind == kind,
            },
    {
        match parse_share_line(line) {
            Err(e) => Err(e),
            Ok(None) => Ok(false),
            Ok(Some((k, x, data))) => {
                match self.add_share(k, x, data) {
                    Err(e) => Err(e),
                    Ok(()) => Ok(self.is_complete()),
                }
            },
        }
    }
}

pub open spec fn lines_view(lines: Seq<String>) -> Seq<Seq<char>> {
    lines.map_values(|l: String| l@)
}

/// Collects shares from `lines` until K distinct ones are in; returns K and the shares.
pub fn read_shares(lines: &Vec<String>) -> (r: Result<(u8, Vec<(u8, Vec<u8>)>), Error>)
    ensures
        match run(start(), lines_view(lines@)) {
            Ok(st) => r matches Ok((k, shares)) && st.0 matches Some((k2, _)) && k == k2
                && shares@.map_values(|p: (u8, Vec<u8>)| (p.0, p.1@)) == st.1,
            Err(kind) => r matches Err(e) && e.kind == kind,
        },
        r matches Ok((k, shares)) ==> shares@.len() == k && crate::sharing::shares_ok(shares@, k as nat),
{
    let mut set = ShareSet::new();
    let mut i: usize = 0;
    assert(lines_view(lines@).skip(0) =~= lines_view(lines@));
    while i < lines.len()
        invariant
            i <= lines@.len(),
            set.wf(),
            !complete(set.model()),
            run(start(), lines_view(lines@)) == run(set.model(), lines_view(lines@).skip(i as int)),
        decreases lines@.len() - i,
    {
        assert(lines_view(lines@).skip(i as int)[0] == lines@[i as int]@);
        assert(lines_view(lines@).skip(i as int).drop_first() =~= lines_view(lines@).skip(i + 1));
        let done = match set.add_line(lines[i].as_str()) {
            Err(e) => return Err(e),
            Ok(d) => d,
        };
        i = i + 1;
        if done {
            let k = match set.k_len {
                Some((k, _)) => k,
                None => 0,
            };
            proof {
                let m = set.model().1;
                assert forall|j: int| 0 <= j < set.shares@.len() implies m[j] == (
                    set.shares@[j].0,
                    set.shares@[j].1@,
                ) by {}
                assert(set.shares@.len() == m.len());
                assert(set.shares@.len() == k);
                assert forall|a: int, b: int|
                    0 <= a < k && 0 <= b < k && a != b implies set.shares@[a].0 != set.shares@[b].0 by {
                    assert(m[a].0 != m[b].0);
                }
                assert forall|a: int| 0 <= a < k implies (#[trigger] set.shares@[a]).1@.len()
                    == set.shares@[0].1@.len() by {
                    assert(m[a].1.len() == m[0].1.len());
                }
            }
            return Ok((k, set.shares));
        }
    }
    Err(other_io_err(ErrorKind::NotEnoughShares, "Not enough shares provided!", None))
}

} // verus!
