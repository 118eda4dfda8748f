//! The encode and decode flows over in-memory input.
use vstd::prelude::*;
use crate::codec::{
    base64_of, checksum, collected_wf, complete, format_share, parse_line_spec, lines_view, read_shares, run, share_line, start, step,
    Collected,
};
use crate::error::{other_io_err, pie2io, Error, ErrorKind};
use crate::sharing::{is_sharing, lagrange_at, reconstruct, secret_share};
use crate::text::{chars_of, dec_u8, parse_u8, split, split_spec, trim, trim_spec};

verus! {

/// The largest secret, in bytes.
pub const MAX_SECRET: usize = 65536;

/// Splits `secret` into `n` share lines with checksums, any `k` of which recover it.
pub fn encode_secret(secret: &[u8], k: u8, n: u8) -> (r: Result<Vec<String>, Error>)
    requires
        1 <= k <= n,
    ensures
        secret@.len() > MAX_SECRET <==> (r matches Err(e) && e.kind == ErrorKind::SecretTooLarge),
        r matches Err(e) ==> e.kind == ErrorKind::SecretTooLarge || e.kind == ErrorKind::RandomFailure,
        secret@.len() <= MAX_SECRET && (secret@.len() == 0 || k == 1) ==> r is Ok,
        r matches Ok(lines) ==> exists|shares: Seq<Vec<u8>>, cs: Seq<Seq<u8>>|
            is_sharing(secret@, k, n, shares, cs) && lines@.len() == n && forall|i: int|
                0 <= i < n ==> #[trigger] lines@[i]@ == share_line(k, (i + 1) as u8, shares[i]@, true)
                && parse_line_spec(lines@[i]@) == Ok::<(u8, u8, Seq<u8>), ErrorKind>(
                    (k, (i + 1) as u8, shares[i]@),
                ) && base64_of(shares[i]@).len() == (4 * secret@.len() + 2) / 3
                && base64_of(checksum(k, (i + 1) as u8, shares[i]@)).len() == 4,
{
    if secret.len() > MAX_SECRET {
        return Err(other_io_err(ErrorKind::SecretTooLarge, "Secret too large", None));
    }
    let shares = match secret_share(secret, k, n) {
        Ok(s) => s,
        Err(e) => return Err(e),
    };
    let ghost cs = choose|cs: Seq<Seq<u8>>| is_sharing(secret@, k, n, shares@, cs);
    assert(is_sharing(secret@, k, n, shares@, cs));
    let mut lines: Vec<String> = Vec::new();
    let mut i: usize = 0;
    while i < shares.len()
        invariant
            shares@.len() == n,
            1 <= k <= n,
            i <= n,
            lines@.len() == i,
            forall|j: int| 0 <= j < n ==> (#[trigger] shares@[j])@.len() == secret@.len(),
            forall|j: int|
                0 <= j < i ==> #[trigger] lines@[j]@ == share_line(k, (j + 1) as u8, shares@[j]@, true)
                && parse_line_spec(lines@[j]@) == Ok::<(u8, u8, Seq<u8>), ErrorKind>(
                    (k, (j + 1) as u8, shares@[j]@),
                ) && base64_of(shares@[j]@).len() == (4 * secret@.len() + 2) / 3
                && base64_of(checksum(k, (j + 1) as u8, shares@[j]@)).len() == 4,
        decreases n - i,
    {
        let line = format_share(k, (i + 1) as u8, shares[i].as_slice(), true);
        assert((i + 1) as u8 >= 1);
        lines.push(line);
        i = i + 1;
    }
    let r: Result<Vec<String>, Error> = Ok(lines);
    assert(is_sharing(secret@, k, n, shares@, cs));
    r
}

/// The secret that a complete set of shares gives: each byte is the interpolating
/// polynomial of its column evaluated at zero.
pub open spec fn secret_of(st: Collected) -> Seq<u8> {
    Seq::new(
        st.1[0].1.len(),
        |c: int| lagrange_at(Seq::new(st.1.len(), |i: int| (st.1[i].0, st.1[i].1[c])), 0),
    )
}

/// Reads shares from `lines` and recovers the secret.
pub fn decode_lines(lines: &Vec<String>) -> (r: Result<Vec<u8>, Error>)
    ensures
        match run(start(), lines_view(lines@)) {
            Ok(st) => r matches Ok(secret) && secret@ == secret_of(st),
            Err(kind) => r matches Err(e) && e.kind == kind,
        },
{
    let (k, shares) = match read_shares(lines) {
        Ok(p) => p,
        Err(e) => return Err(e),
    };
    let secret = reconstruct(&shares, k);
    proof {
        let st = run(start(), lines_view(lines@))->Ok_0;
        let v = shares@.map_values(|p: (u8, Vec<u8>)| (p.0, p.1@));
        assert(v == st.1);
        assert forall|c: int| 0 <= c < secret@.len() implies #[trigger] secret@[c] == secret_of(st)[c] by {
            assert(crate::sharing::column(shares@, k as nat, c) =~= Seq::new(
                st.1.len(),
                |i: int| (st.1[i].0, st.1[i].1[c]),
            ));
        }
        assert(secret@ =~= secret_of(st));
    }
    Ok(secret)
}

/// `K,N`: two decimal numbers separated by a comma, each trimmed.
pub open spec fn parse_k_n_spec(s: Seq<char>) -> Option<(u8, u8)> {
    let parts = split_spec(s, ',');
    if parts.len() < 2 {
        None
    } else {
        match (dec_u8(trim_spec(parts[0])), dec_u8(trim_spec(parts[1]))) {
            (Some(k), Some(n)) => Some((k, n)),
            _ => None,
        }
    }
}

/// Parses the `K,N` argument of the encode flow; pieces after the second are ignored.
pub fn parse_k_n(s: &str) -> (r: Result<(u8, u8), Error>)
    ensures
        match parse_k_n_spec(s@) {
            Some(p) => r matches Ok(q) && q == p,
            None => r matches Err(e) && e.kind == ErrorKind::ArgError,
        },
{
    let parts = split(&chars_of(s), ',');
    if parts.len() < 2 {
        return Err(other_io_err(ErrorKind::ArgError, "K and N have to be separated with a comma", None));
    }
    let k = match parse_u8(&trim(&parts[0])) {
        Ok(v) => v,
        Err(reason) => return Err(pie2io(ErrorKind::ArgError, reason)),
    };
    let n = match parse_u8(&trim(&parts[1])) {
        Ok(v) => v,
        Err(reason) => return Err(pie2io(ErrorKind::ArgError, reason)),
    };
    Ok((k, n))
}

/// Feeding the same line twice leaves the shares as feeding it once.
pub proof fn lemma_duplicate_line(st: Collected, line: Seq<char>)
    requires
        collected_wf(st),
        step(st, line) is Ok,
    ensures
        step(step(st, line)->Ok_0, line) == step(st, line),
{
    let st1 = step(st, line)->Ok_0;
    if trim_spec(line).len() != 0 {
        let (k, x, d) = crate::codec::parse_line_spec(line)->Ok_0;
        if !crate::codec::has_x(st.1, x) {
            assert(st1.1[st.1.len() as int].0 == x);
        }
        assert(crate::codec::has_x(st1.1, x));
    }
}

/// Feeding a line keeps a collection reachable: distinct x values, one length, at most K.
pub proof fn lemma_step_wf(st: Collected, line: Seq<char>)
    requires
        collected_wf(st),
        !complete(st),
        step(st, line) is Ok,
    ensures
        collected_wf(step(st, line)->Ok_0),
{
    if trim_spec(line).len() != 0 {
        let (k, x, d) = crate::codec::parse_line_spec(line)->Ok_0;
        assert(k >= 1);
        let s1 = step(st, line)->Ok_0;
        if !crate::codec::has_x(st.1, x) {
            assert(s1.1 == st.1.push((x, d)));
            assert forall|i: int, j: int|
                0 <= i < s1.1.len() && 0 <= j < s1.1.len() && i != j implies s1.1[i].0 != s1.1[j].0 by {
                if i == st.1.len() {
                    assert(st.1[j] == s1.1[j]);
                } else if j == st.1.len() {
                    assert(st.1[i] == s1.1[i]);
                }
            }
        }
    }
}

proof fn lemma_duplicate_from(st: Collected, pre: Seq<Seq<char>>, l: Seq<char>, post: Seq<Seq<char>>)
    requires
        collected_wf(st),
    ensures
        run(st, pre + seq![l, l] + post) == run(st, pre + seq![l] + post),
    decreases pre.len(),
{
    let a = pre + seq![l, l] + post;
    let b = pre + seq![l] + post;
    if complete(st) {
    } else if pre.len() == 0 {
        assert(a[0] == l && b[0] == l);
        assert(a.drop_first() =~= seq![l] + post);
        assert(b.drop_first() =~= post);
        if step(st, l) is Ok {
            let s1 = step(st, l)->Ok_0;
            lemma_step_wf(st, l);
            lemma_duplicate_line(st, l);
            let c = seq![l] + post;
            assert(c[0] == l);
            assert(c.drop_first() =~= post);
            assert(run(st, a) == run(s1, c));
            assert(run(st, b) == run(s1, post));
            assert(run(s1, c) == run(s1, post));
        } else {
            assert(run(st, a) == run(st, b));
        }
    } else {
        assert(a[0] == pre[0] && b[0] == pre[0]);
        assert(a.drop_first() =~= pre.drop_first() + seq![l, l] + post);
        assert(b.drop_first() =~= pre.drop_first() + seq![l] + post);
        if step(st, pre[0]) is Ok {
            let s1 = step(st, pre[0])->Ok_0;
            lemma_step_wf(st, pre[0]);
            lemma_duplicate_from(s1, pre.drop_first(), l, post);
            assert(run(st, a) == run(s1, pre.drop_first() + seq![l, l] + post));
            assert(run(st, b) == run(s1, pre.drop_first() + seq![l] + post));
        } else {
            assert(run(st, a) == run(st, b));
        }
    }
}

/// Anywhere in the input, a line given twice in a row collects the same shares, or
/// fails the same way, as that line given once.
pub proof fn lemma_duplicate_line_in_input(pre: Seq<Seq<char>>, l: Seq<char>, post: Seq<Seq<char>>)
    ensures
        run(start(), pre + seq![l, l] + post) == run(start(), pre + seq![l] + post),
{
    lemma_duplicate_from(start(), pre, l, post);
}

/// Feeding every line in turn, without stopping at K.
pub open spec fn feed_all(st: Collected, lines: Seq<Seq<char>>) -> Result<Collected, ErrorKind>
    decreases lines.len(),
{
    if lines.len() == 0 {
        Ok(st)
    } else {
        match step(st, lines[0]) {
            Err(e) => Err(e),
            Ok(next) => feed_all(next, lines.drop_first()),
        }
    }
}

/// Fewer than K distinct shares are in (K of the first accepted line).
pub open spec fn short(st: Collected) -> bool {
    match st.0 {
        None => true,
        Some((k, _)) => st.1.len() < k,
    }
}

proof fn lemma_feed_keeps_first(st: Collected, lines: Seq<Seq<char>>)
    requires
        st.0 is Some,
        feed_all(st, lines) is Ok,
    ensures
        feed_all(st, lines)->Ok_0.0 == st.0,
        feed_all(st, lines)->Ok_0.1.len() >= st.1.len(),
    decreases lines.len(),
{
    if lines.len() > 0 {
        lemma_feed_keeps_first(step(st, lines[0])->Ok_0, lines.drop_first());
    }
}

proof fn lemma_run_after(st: Collected, lines: Seq<Seq<char>>, rest: Seq<Seq<char>>)
    requires
        feed_all(st, lines) is Ok,
        short(feed_all(st, lines)->Ok_0),
    ensures
        run(st, lines + rest) == run(feed_all(st, lines)->Ok_0, rest),
    decreases lines.len(),
{
    if lines.len() == 0 {
        assert(lines + rest =~= rest);
    } else {
        if complete(st) {
            lemma_feed_keeps_first(st, lines);
        } else {
            let s1 = step(st, lines[0])->Ok_0;
            assert((lines + rest)[0] == lines[0]);
            assert((lines + rest).drop_first() =~= lines.drop_first() + rest);
            lemma_run_after(s1, lines.drop_first(), rest);
        }
    }
}

/// When the input ends with no line rejected and fewer than K distinct shares in,
/// decoding fails for want of shares.
pub proof fn lemma_not_enough_shares(lines: Seq<Seq<char>>)
    requires
        feed_all(start(), lines) is Ok,
        short(feed_all(start(), lines)->Ok_0),
    ensures
        run(start(), lines) == Err::<Collected, ErrorKind>(ErrorKind::NotEnoughShares),
{
    lemma_run_after(start(), lines, Seq::empty());
    assert(lines + Seq::<Seq<char>>::empty() =~= lines);
}

/// A share that, before K distinct shares are in, disagrees with the first accepted one
/// on K or on the payload length makes the whole decode fail as incompatible, whatever
/// its x and whatever follows.
pub proof fn lemma_incompatible_share(pre: Seq<Seq<char>>, l: Seq<char>, post: Seq<Seq<char>>)
    requires
        feed_all(start(), pre) is Ok,
        short(feed_all(start(), pre)->Ok_0),
        feed_all(start(), pre)->Ok_0.0 is Some,
        trim_spec(l).len() != 0,
        crate::codec::parse_line_spec(l) is Ok,
        ({
            let (k, len) = feed_all(start(), pre)->Ok_0.0->Some_0;
            let (k2, x, d) = crate::codec::parse_line_spec(l)->Ok_0;
            k2 != k || d.len() != len
        }),
    ensures
        run(start(), pre + seq![l] + post) == Err::<Collected, ErrorKind>(ErrorKind::IncompatibleShares),
{
    let s = feed_all(start(), pre)->Ok_0;
    lemma_run_after(start(), pre, seq![l] + post);
    assert(pre + seq![l] + post =~= pre + (seq![l] + post));
    assert((seq![l] + post)[0] == l);
}

proof fn lemma_parsed_not_blank(l: Seq<char>)
    requires
        crate::codec::parse_line_spec(l) is Ok,
    ensures
        trim_spec(l).len() != 0,
{
    if trim_spec(l).len() == 0 {
        assert(trim_spec(l) =~= Seq::<char>::empty());
        assert(split_spec(Seq::<char>::empty(), '-').len() == 1);
    }
}

proof fn lemma_accept_from(
    lines: Seq<Seq<char>>,
    k: u8,
    len: nat,
    shares: Seq<(u8, Seq<u8>)>,
    j: int,
)
    requires
        1 <= k,
        lines.len() == k,
        shares.len() == k,
        0 <= j <= k,
        forall|i: int|
            0 <= i < k ==> #[trigger] crate::codec::parse_line_spec(lines[i]) == Ok::<
                (u8, u8, Seq<u8>),
                ErrorKind,
            >((k, shares[i].0, shares[i].1)),
        forall|i: int| 0 <= i < k ==> (#[trigger] shares[i]).1.len() == len,
        forall|i: int, m: int| 0 <= i < k && 0 <= m < k && i != m ==> shares[i].0 != shares[m].0,
    ensures
        run(
            if j == 0 {
                start()
            } else {
                (Some((k, len)), shares.take(j))
            },
            lines.skip(j),
        ) == Ok::<Collected, ErrorKind>((Some((k, len)), shares)),
    decreases k - j,
{
    let st: Collected = if j == 0 {
        start()
    } else {
        (Some((k, len)), shares.take(j))
    };
    if j == k {
        assert(shares.take(j) =~= shares);
    } else {
        let l = lines[j];
        lemma_parsed_not_blank(l);
        assert(crate::codec::parse_line_spec(l) == Ok::<(u8, u8, Seq<u8>), ErrorKind>(
            (k, shares[j].0, shares[j].1),
        ));
        assert(!crate::codec::has_x(st.1, shares[j].0)) by {
            if j > 0 {
                assert forall|i: int| 0 <= i < st.1.len() implies (#[trigger] st.1[i]).0 != shares[j].0 by {
                    assert(st.1[i] == shares[i]);
                }
            }
        }
        assert(st.1.push(shares[j]) =~= shares.take(j + 1));
        assert(step(st, l) == Ok::<Collected, ErrorKind>((Some((k, len)), shares.take(j + 1))));
        assert(lines.skip(j)[0] == l);
        assert(lines.skip(j).drop_first() =~= lines.skip(j + 1));
        lemma_accept_from(lines, k, len, shares, j + 1);
    }
}

/// K lines that parse to shares agreeing on K and on length, with distinct x values, are
/// all accepted, in their order.
pub proof fn lemma_consistent_lines_accepted(
    lines: Seq<Seq<char>>,
    k: u8,
    len: nat,
    shares: Seq<(u8, Seq<u8>)>,
)
    requires
        1 <= k,
        lines.len() == k,
        shares.len() == k,
        forall|i: int|
            0 <= i < k ==> #[trigger] crate::codec::parse_line_spec(lines[i]) == Ok::<
                (u8, u8, Seq<u8>),
                ErrorKind,
            >((k, shares[i].0, shares[i].1)),
        forall|i: int| 0 <= i < k ==> (#[trigger] shares[i]).1.len() == len,
        forall|i: int, m: int| 0 <= i < k && 0 <= m < k && i != m ==> shares[i].0 != shares[m].0,
    ensures
        run(start(), lines) == Ok::<Collected, ErrorKind>((Some((k, len)), shares)),
{
    lemma_accept_from(lines, k, len, shares, 0);
    assert(lines.skip(0) =~= lines);
}

} // verus!
