//! Icon service categories and their accent colors.

use vstd::prelude::*;
use crate::text::{
    chars_of, concat, dec, dec_of, find, find_of, lemma_find, slice_of, string_of, strip_prefix,
    strip_prefix_of,
};

verus! {

/// Service category of an icon, mapped to the AWS architecture palette. A
/// monochrome glyph in a category renders as a colored tile with a white mark.
#[derive(Debug, Clone, Copy, PartialEq, Eq, Structural)]
pub enum IconCategory {
    /// Compute (EC2, Lambda, ECS, Fargate, ...).
    Compute,
    /// Storage (S3, EBS, EFS, ...).
    Storage,
    /// Database (RDS, DynamoDB, ElastiCache, ...).
    Database,
    /// Networking and content delivery (VPC, Route 53, CloudFront, ELB, ...).
    Network,
    /// Security, identity and compliance (IAM, KMS, WAF, Cognito, ...).
    Security,
    /// Application integration and messaging (SNS, SQS, EventBridge, ...).
    Integration,
    /// Analytics (Kinesis, Athena, Glue, Redshift, ...).
    Analytics,
    /// Management and governance (CloudWatch, logging, ...).
    Management,
    /// Uncategorized or client-side (browsers, users, generic).
    General,
}

/// Accent color of a category.
pub open spec fn category_hue(c: IconCategory) -> Seq<char> {
    match c {
        IconCategory::Compute => "#ED7100"@,
        IconCategory::Storage => "#7AA116"@,
        IconCategory::Database => "#2E73B8"@,
        IconCategory::Network => "#8C4FFF"@,
        IconCategory::Security => "#D13212"@,
        IconCategory::Integration => "#E7157B"@,
        IconCategory::Analytics => "#01A88D"@,
        IconCategory::Management => "#8C4D38"@,
        IconCategory::General => "#5A6B86"@,
    }
}

impl IconCategory {
    /// Accent color for this category (the AWS architecture palette).
    pub fn color(self) -> (r: &'static str)
        ensures
            r@ == category_hue(self),
    {
        match self {
            IconCategory::Compute => "#ED7100",
            IconCategory::Storage => "#7AA116",
            IconCategory::Database => "#2E73B8",
            IconCategory::Network => "#8C4FFF",
            IconCategory::Security => "#D13212",
            IconCategory::Integration => "#E7157B",
            IconCategory::Analytics => "#01A88D",
            IconCategory::Management => "#8C4D38",
            IconCategory::General => "#5A6B86",
        }
    }
}

/// `aws:` and `infra:` name the same bundled namespace: a key under one
/// prefix has the same name under the other. Other prefixes have no alias.
pub open spec fn alias_spec(key: Seq<char>) -> Option<Seq<char>> {
    match strip_prefix(key, "aws:"@) {
        Some(name) => Some("infra:"@ + name),
        None => match strip_prefix(key, "infra:"@) {
            Some(name) => Some("aws:"@ + name),
            None => None,
        },
    }
}

/// The same icon name under the sibling prefix (`aws:x` <-> `infra:x`).
pub fn alias_key(key: &str) -> (r: Option<String>)
    ensures
        match r {
            Some(s) => alias_spec(key@) == Some(s@),
            None => alias_spec(key@) is None,
        },
{
    let k = chars_of(key);
    let aws = chars_of("aws:");
    let infra = chars_of("infra:");
    proof {
        reveal_strlit("aws:");
        reveal_strlit("infra:");
    }
    match strip_prefix_of(k.as_slice(), aws.as_slice()) {
        Some(name) => Some(string_of(concat(infra.as_slice(), name.as_slice()).as_slice())),
        None => match strip_prefix_of(k.as_slice(), infra.as_slice()) {
            Some(name) => Some(string_of(concat(aws.as_slice(), name.as_slice()).as_slice())),
            None => None,
        },
    }
}

/// The earlier of two marker hits `(position, marker length, closing char)`;
/// the first one on a tie.
pub open spec fn earlier(x: Option<(int, int, char)>, y: Option<(int, int, char)>) -> Option<
    (int, int, char),
> {
    match (x, y) {
        (None, _) => y,
        (Some(_), None) => x,
        (Some(a), Some(b)) => if b.0 < a.0 {
            y
        } else {
            x
        },
    }
}

pub open spec fn hit(f: Option<int>, len: int, close: char) -> Option<(int, int, char)> {
    match f {
        Some(p) => Some((p, len, close)),
        None => None,
    }
}

/// The first id reference in `s`: `id="…"`, `url(#…)` or `href="#…"`, as
/// the marker's position, its length and the character that ends the id.
pub open spec fn first_marker(s: Seq<char>) -> Option<(int, int, char)> {
    earlier(
        earlier(hit(find(s, "id=\""@), 4, '"'), hit(find(s, "url(#"@), 5, ')')),
        hit(find(s, "href=\"#"@), 7, '"'),
    )
}

/// `body` with `prefix` put in front of every id it defines or references,
/// scanning from the left: at each first marker whose id is closed, the id
/// gets the prefix and the scan goes on from the id's end; an unclosed id or
/// no marker leaves the rest as it is.
pub open spec fn prefixed_ids(body: Seq<char>, prefix: Seq<char>) -> Seq<char>
    decreases body.len(),
{
    match first_marker(body) {
        None => body,
        Some((pos, len, close)) => {
            let start = pos + len;
            match find(body.skip(start), seq![close]) {
                None => body,
                Some(n) => if 0 <= pos && start <= body.len() && 0 <= n && start + n <= body.len() {
                    body.take(start) + prefix + body.subrange(start, start + n) + prefixed_ids(
                        body.skip(start + n),
                        prefix,
                    )
                } else {
                    body
                },
            }
        },
    }
}

pub open spec fn opt_hit(x: Option<(usize, usize, char)>) -> Option<(int, int, char)> {
    match x {
        Some((p, l, c)) => Some((p as int, l as int, c)),
        None => None,
    }
}

fn tag(f: Option<usize>, len: usize, close: char) -> (r: Option<(usize, usize, char)>)
    ensures
        opt_hit(r) == hit(
            match f {
                Some(p) => Some(p as int),
                None => None,
            },
            len as int,
            close,
        ),
        r matches Some((p, l, c)) ==> f == Some(p) && l == len,
{
    match f {
        Some(p) => Some((p, len, close)),
        None => None,
    }
}

fn pick(x: Option<(usize, usize, char)>, y: Option<(usize, usize, char)>) -> (r: Option<
    (usize, usize, char),
>)
    ensures
        opt_hit(r) == earlier(opt_hit(x), opt_hit(y)),
        r == x || r == y,
{
    match (x, y) {
        (None, _) => y,
        (Some(_), None) => x,
        (Some(a), Some(b)) => if b.0 < a.0 {
            y
        } else {
            x
        },
    }
}

/// The first id reference in `s` (see `first_marker`).
fn first_marker_of(s: &[char]) -> (r: Option<(usize, usize, char)>)
    ensures
        opt_hit(r) == first_marker(s@),
        r matches Some((p, l, _)) ==> p + l <= s@.len(),
{
    proof {
        reveal_strlit("id=\"");
        reveal_strlit("url(#");
        reveal_strlit("href=\"#");
    }
    let m_id = chars_of("id=\"");
    let m_url = chars_of("url(#");
    let m_href = chars_of("href=\"#");
    let a = find_of(s, m_id.as_slice());
    let b = find_of(s, m_url.as_slice());
    let c = find_of(s, m_href.as_slice());
    let ta = tag(a, 4, '"');
    let tb = tag(b, 5, ')');
    let tc = tag(c, 7, '"');
    let ab = pick(ta, tb);
    let best = pick(ab, tc);
    proof {
        assert(m_id@.len() == 4 && m_url@.len() == 5 && m_href@.len() == 7);
        if let Some((p, l, _)) = best {
            if best == tc {
                lemma_find(s@, m_href@);
            } else if best == ta {
                lemma_find(s@, m_id@);
            } else {
                lemma_find(s@, m_url@);
            }
        }
    }
    best
}

/// Rewrite `id="foo"`, `url(#foo)` and `href="#foo"` with the prefix
/// `ly<instance>-` so several icon instances on one canvas never share an
/// id (see `prefixed_ids`).
pub fn namespace_ids(body: &str, instance: u64) -> (r: String)
    ensures
        r@ == prefixed_ids(body@, "ly"@ + dec(instance as nat) + "-"@),
{
    proof {
        reveal_strlit("ly");
        reveal_strlit("-");
    }
    let mut prefix = chars_of("ly");
    let digits = dec_of(instance);
    prefix = concat(prefix.as_slice(), digits.as_slice());
    prefix.push('-');
    let ghost pv = prefix@;
    assert(pv == "ly"@ + dec(instance as nat) + "-"@);
    let mut out: Vec<char> = Vec::new();
    let mut rest = chars_of(body);
    loop
        invariant
            prefix@ == pv,
            out@ + prefixed_ids(rest@, pv) == prefixed_ids(body@, pv),
        ensures
            out@ == prefixed_ids(body@, pv),
        decreases rest@.len(),
    {
        let rs = rest.as_slice();
        let best = first_marker_of(rs);
        assert(rs@ == rest@);
        match best {
            None => {
                let ghost r0 = rest@;
                out.append(&mut rest);
                assert(out@ == prefixed_ids(body@, pv));
                break;
            },
            Some((pos, len, close)) => {
                let rl = rest.len();
                assert(pos + len <= rl);
                let start = pos + len;
                let tail = slice_of(rest.as_slice(), start, rest.len());
                let closer = vec![close];
                let found = find_of(tail.as_slice(), closer.as_slice());
                proof {
                    lemma_find(tail@, closer@);
                    assert(closer@ == seq![close]);
                }
                match found {
                    None => {
                        out.append(&mut rest);
                        assert(out@ == prefixed_ids(body@, pv));
                        break;
                    },
                    Some(n) => {
                        let ghost r0 = rest@;
                        let head = slice_of(rest.as_slice(), 0, start);
                        let id = slice_of(rest.as_slice(), start, start + n);
                        let next = slice_of(rest.as_slice(), start + n, rest.len());
                        let ghost out0 = out@;
                        out = concat(out.as_slice(), head.as_slice());
                        out = concat(out.as_slice(), prefix.as_slice());
                        out = concat(out.as_slice(), id.as_slice());
                        rest = next;
                        assert(r0.skip(start as int) == tail@);
                        assert(prefixed_ids(r0, pv) == r0.take(start as int) + pv + r0.subrange(
                            start as int,
                            (start + n) as int,
                        ) + prefixed_ids(rest@, pv));
                        assert(out@ + prefixed_ids(rest@, pv) =~= out0 + prefixed_ids(r0, pv));
                    },
                }
            },
        }
    }
    string_of(out.as_slice())
}

proof fn lemma_dec_len(n: nat)
    ensures
        dec(n).len() >= 1,
        dec(n).len() == 1 <==> n < 10,
    decreases n,
{
    if n >= 10 {
        lemma_dec_len(n / 10);
    }
}

proof fn lemma_digit_char_injective(a: int, b: int)
    requires
        0 <= a < 10,
        0 <= b < 10,
        crate::text::digit_char(a) == crate::text::digit_char(b),
    ensures
        a == b,
{
    assert(crate::text::digit_char(a) as u32 == 48 + a);
    assert(crate::text::digit_char(b) as u32 == 48 + b);
}

/// Different numbers have different decimal representations.
proof fn lemma_dec_injective(a: nat, b: nat)
    requires
        dec(a) == dec(b),
    ensures
        a == b,
    decreases a,
{
    lemma_dec_len(a);
    lemma_dec_len(b);
    if a < 10 {
        assert(b < 10);
        assert(dec(a) == seq![crate::text::digit_char(a as int)]);
        assert(dec(b) == seq![crate::text::digit_char(b as int)]);
        assert(dec(a)[0] == dec(b)[0]);
        assert(crate::text::digit_char(a as int) == dec(a)[0]);
        assert(crate::text::digit_char(b as int) == dec(b)[0]);
        lemma_digit_char_injective(a as int, b as int);
    } else {
        let da = dec(a);
        let db = dec(b);
        assert(da.last() == db.last());
        assert(da.drop_last() == dec(a / 10));
        assert(db.drop_last() == dec(b / 10));
        lemma_dec_injective(a / 10, b / 10);
        lemma_digit_char_injective((a % 10) as int, (b % 10) as int);
    }
}

/// Icon instances with different numbers get different id prefixes, so
/// their namespaced ids never coincide.
pub proof fn law_instance_prefixes_differ(a: u64, b: u64)
    requires
        a != b,
    ensures
        "ly"@ + dec(a as nat) + "-"@ != "ly"@ + dec(b as nat) + "-"@,
{
    reveal_strlit("ly");
    reveal_strlit("-");
    let pa = "ly"@ + dec(a as nat) + "-"@;
    let pb = "ly"@ + dec(b as nat) + "-"@;
    if pa == pb {
        assert(dec(a as nat) =~= pa.subrange(2, pa.len() - 1));
        assert(dec(b as nat) =~= pb.subrange(2, pb.len() - 1));
        lemma_dec_injective(a as nat, b as nat);
    }
}

/// `t` with every occurrence of `p` taken out, scanning from the left.
pub open spec fn remove_all(t: Seq<char>, p: Seq<char>) -> Seq<char>
    decreases t.len(),
{
    if t.len() == 0 {
        seq![]
    } else if p.len() > 0 && p.len() <= t.len() && t.take(p.len() as int) == p {
        remove_all(t.skip(p.len() as int), p)
    } else {
        seq![t[0]] + remove_all(t.skip(1), p)
    }
}

/// `p` occurs somewhere in `t`.
pub open spec fn occurs(t: Seq<char>, p: Seq<char>) -> bool {
    exists|j: int| 0 <= j && j + p.len() <= t.len() && #[trigger] t.subrange(j, j + p.len()) == p
}

spec fn no_quote_hash(p: Seq<char>) -> bool {
    forall|i: int| 0 <= i < p.len() ==> #[trigger] p[i] != '"' && p[i] != '#'
}

/// A head in which no occurrence of `p` starts passes through unchanged.
proof fn lemma_remove_pass(x: Seq<char>, y: Seq<char>, p: Seq<char>)
    requires
        p.len() > 0,
        forall|j: int|
            0 <= j < x.len() ==> !(j + p.len() <= (x + y).len() && #[trigger] (x + y).subrange(
                j,
                j + p.len(),
            ) == p),
    ensures
        remove_all(x + y, p) == x + remove_all(y, p),
    decreases x.len(),
{
    if x.len() == 0 {
        assert(x + y =~= y);
        assert(x + remove_all(y, p) =~= remove_all(y, p));
    } else {
        let t = x + y;
        assert(!(p.len() <= t.len() && t.take(p.len() as int) == p)) by {
            if p.len() <= t.len() && t.take(p.len() as int) == p {
                let z: int = 0;
                assert(t.subrange(z, z + p.len()) =~= t.take(p.len() as int));
                assert(!(z + p.len() <= (x + y).len() && (x + y).subrange(z, z + p.len()) == p));
            }
        }
        let x1 = x.skip(1);
        assert(t.skip(1) =~= x1 + y);
        assert forall|j: int|
            0 <= j < x1.len() implies !(j + p.len() <= (x1 + y).len() && #[trigger] (x1 + y).subrange(
            j,
            j + p.len(),
        ) == p) by {
            if j + p.len() <= (x1 + y).len() {
                assert((x1 + y).subrange(j, j + p.len()) =~= t.subrange(j + 1, j + 1 + p.len()));
            }
        }
        lemma_remove_pass(x1, y, p);
        assert(t[0] == x[0]);
        assert(seq![x[0]] + (x1 + remove_all(y, p)) =~= x + remove_all(y, p));
    }
}

/// The first marker lies inside `s`, and its last character is `"` or `#`.
proof fn lemma_marker_end(s: Seq<char>)
    ensures
        first_marker(s) matches Some((pos, len, close)) ==> 0 <= pos && 1 <= len && pos + len <= s.len()
            && (s[pos + len - 1] == '"' || s[pos + len - 1] == '#'),
{
    reveal_strlit("id=\"");
    reveal_strlit("url(#");
    reveal_strlit("href=\"#");
    lemma_find(s, "id=\""@);
    lemma_find(s, "url(#"@);
    lemma_find(s, "href=\"#"@);
    if let Some(k) = find(s, "id=\""@) {
        assert(s.subrange(k, k + 4)[3] == s[k + 3]);
    }
    if let Some(k) = find(s, "url(#"@) {
        assert(s.subrange(k, k + 5)[4] == s[k + 4]);
    }
    if let Some(k) = find(s, "href=\"#"@) {
        assert(s.subrange(k, k + 7)[6] == s[k + 6]);
    }
}

/// Taking `p` out of `x` followed by the prefixed `b` gives `x + b` back,
/// when `p` does not occur in `x + b` and holds no `"` or `#`.
proof fn lemma_remove_prefixed(b: Seq<char>, x: Seq<char>, p: Seq<char>)
    requires
        p.len() > 0,
        no_quote_hash(p),
        !occurs(x + b, p),
    ensures
        remove_all(x + prefixed_ids(b, p), p) == x + b,
    decreases b.len(),
{
    let xb = x + b;
    assert forall|j: int| 0 <= j < xb.len() implies !(j + p.len() <= (xb + Seq::<char>::empty()).len()
        && #[trigger] (xb + Seq::<char>::empty()).subrange(j, j + p.len()) == p) by {
        assert(xb + Seq::<char>::empty() =~= xb);
    }
    lemma_remove_pass(xb, Seq::<char>::empty(), p);
    assert(xb + Seq::<char>::empty() =~= xb);
    assert(remove_all(Seq::<char>::empty(), p) == Seq::<char>::empty());
    assert(xb + remove_all(Seq::<char>::empty(), p) =~= xb);
    lemma_marker_end(b);
    match first_marker(b) {
        None => {},
        Some((pos, len, close)) => {
            let start = pos + len;
            lemma_find(b.skip(start), seq![close]);
            match find(b.skip(start), seq![close]) {
                None => {},
                Some(n) => {
                    if 0 <= pos && start <= b.len() && 0 <= n && start + n <= b.len() {
                        let h = b.take(start);
                        let m = b.subrange(start, start + n);
                        let tt = b.skip(start + n);
                        let r = prefixed_ids(tt, p);
                        let xh = x + h;
                        let o = x + prefixed_ids(b, p);
                        assert(prefixed_ids(b, p) == h + p + m + r);
                        assert(o =~= xh + (p + m + r));
                        let rest = p + m + r;
                        assert forall|j: int|
                            0 <= j < xh.len() implies !(j + p.len() <= (xh + rest).len()
                            && #[trigger] (xh + rest).subrange(j, j + p.len()) == p) by {
                            if j + p.len() <= (xh + rest).len() && (xh + rest).subrange(j, j + p.len()) == p {
                                if j + p.len() <= xh.len() {
                                    assert((xh + rest).subrange(j, j + p.len()) =~= xb.subrange(j, j + p.len()));
                                    assert(occurs(xb, p));
                                } else {
                                    let idx = xh.len() - 1;
                                    assert((xh + rest)[idx] == b[start - 1]);
                                    assert((xh + rest).subrange(j, j + p.len())[idx - j] == (xh + rest)[idx]);
                                    assert(p[idx - j] == b[start - 1]);
                                }
                            }
                        }
                        lemma_remove_pass(xh, rest, p);
                        assert(rest.take(p.len() as int) =~= p);
                        assert(rest.skip(p.len() as int) =~= m + r);
                        let mt = m + tt;
                        assert(mt =~= xb.skip(x.len() + start));
                        assert(!occurs(mt, p)) by {
                            if occurs(mt, p) {
                                let j = choose|j: int| 0 <= j && j + p.len() <= mt.len() && #[trigger] mt.subrange(j, j + p.len()) == p;
                                assert(mt.subrange(j, j + p.len()) =~= xb.subrange(x.len() + start + j, x.len() + start + j + p.len()));
                            }
                        }
                        lemma_remove_prefixed(tt, m, p);
                        assert(xh + (m + tt) =~= xb);
                    }
                },
            }
        },
    }
}

proof fn lemma_dec_digits(n: nat)
    ensures
        forall|i: int| 0 <= i < dec(n).len() ==> 48 <= (#[trigger] dec(n)[i]) as u32 <= 57,
    decreases n,
{
    if n >= 10 {
        lemma_dec_digits(n / 10);
        let d = dec(n);
        assert forall|i: int| 0 <= i < d.len() implies 48 <= (#[trigger] d[i]) as u32 <= 57 by {
            if i < d.len() - 1 {
                assert(d[i] == dec(n / 10)[i]);
            }
        }
    }
}

/// Taking the instance prefix back out of a namespaced body gives the body
/// back, when the body does not already hold that prefix: namespacing only
/// inserts the prefix, and only in front of ids.
pub proof fn law_namespace_ids_removable(body: Seq<char>, instance: u64)
    requires
        !occurs(body, "ly"@ + dec(instance as nat) + "-"@),
    ensures
        remove_all(
            prefixed_ids(body, "ly"@ + dec(instance as nat) + "-"@),
            "ly"@ + dec(instance as nat) + "-"@,
        ) == body,
{
    reveal_strlit("ly");
    reveal_strlit("-");
    let p = "ly"@ + dec(instance as nat) + "-"@;
    lemma_dec_digits(instance as nat);
    assert forall|i: int| 0 <= i < p.len() implies #[trigger] p[i] != '"' && p[i] != '#' by {
        if 2 <= i < p.len() - 1 {
            assert(p[i] == dec(instance as nat)[i - 2]);
        }
    }
    assert(Seq::<char>::empty() + body =~= body);
    assert(Seq::<char>::empty() + prefixed_ids(body, p) =~= prefixed_ids(body, p));
    lemma_remove_prefixed(body, Seq::<char>::empty(), p);
}

/// A body that holds none of the id markers `id="`, `url(#` and `href="#`
/// comes back from namespacing unchanged.
pub proof fn law_namespace_ids_unmarked(body: Seq<char>, instance: u64)
    requires
        !occurs(body, "id=\""@),
        !occurs(body, "url(#"@),
        !occurs(body, "href=\"#"@),
    ensures
        prefixed_ids(body, "ly"@ + dec(instance as nat) + "-"@) == body,
{
    lemma_find(body, "id=\""@);
    lemma_find(body, "url(#"@);
    lemma_find(body, "href=\"#"@);
    if let Some(k) = find(body, "id=\""@) {
        assert(body.subrange(k, k + "id=\""@.len()) == "id=\""@);
    }
    if let Some(k) = find(body, "url(#"@) {
        assert(body.subrange(k, k + "url(#"@.len()) == "url(#"@);
    }
    if let Some(k) = find(body, "href=\"#"@) {
        assert(body.subrange(k, k + "href=\"#"@.len()) == "href=\"#"@);
    }
    assert(first_marker(body) is None);
}

} // verus!
