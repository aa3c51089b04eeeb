//! Core scanner: finds NUL-terminated runs of printable bytes in a buffer,
//! window by window, merges the per-window matches by offset, and resolves
//! overlaps into the final ordered result list.

use vstd::prelude::*;
use vstd::slice::*;

verus! {

/// Cap on the window overlap: a match of at most this many bytes that
/// straddles a window boundary is fully contained in the earlier window.
pub const MAX_STRING_LEN: usize = 1024;

/// Bytes a match may consist of: horizontal tab, line feed, carriage
/// return, and printable ASCII.
pub open spec fn is_class_byte(b: u8) -> bool {
    b == 9 || b == 10 || b == 13 || (0x20 <= b && b <= 0x7e)
}

/// Bytes removed from accepted matches before they are returned.
pub open spec fn is_stripped_byte(b: u8) -> bool {
    b == 7 || b == 10 || b == 13
}

/// Length of the maximal run of class bytes starting at `i`.
pub open spec fn run_len(s: Seq<u8>, i: int) -> nat
    decreases s.len() - i when 0 <= i <= s.len()
{
    if i >= s.len() || !is_class_byte(s[i]) {
        0
    } else {
        (1 + run_len(s, i + 1)) as nat
    }
}

pub proof fn lemma_run_len_bound(s: Seq<u8>, i: int)
    requires
        0 <= i <= s.len(),
    ensures
        i + run_len(s, i) <= s.len(),
        forall|t: int| i <= t < i + run_len(s, i) ==> is_class_byte(s[t]),
        i + run_len(s, i) < s.len() ==> !is_class_byte(s[i + run_len(s, i)]),
    decreases s.len() - i,
{
    if i < s.len() && is_class_byte(s[i]) {
        lemma_run_len_bound(s, i + 1);
    }
}

/// One candidate match: its absolute offset and its bytes (terminator
/// excluded).
pub type MatchEntry = (usize, Seq<u8>);

/// The matches a single left-to-right scan of `s` finds from position `i`
/// on: each is a maximal run of at least `n` class bytes immediately
/// followed by a NUL byte; the scan resumes after the terminator.
pub open spec fn scan_from(s: Seq<u8>, n: int, i: int) -> Seq<(int, Seq<u8>)>
    decreases s.len() - i when 0 <= i <= s.len()
{
    if i >= s.len() {
        Seq::empty()
    } else {
        let k = run_len(s, i) as int;
        if k >= n && i + k < s.len() && s[i + k] == 0 {
            seq![(i, s.subrange(i, i + k))] + scan_from(s, n, i + k + 1)
        } else if i + k + 1 <= s.len() {
            scan_from(s, n, i + k + 1)
        } else {
            Seq::empty()
        }
    }
}

/// Window-local match positions turned into absolute ones.
pub open spec fn shift_entries(es: Seq<(int, Seq<u8>)>, off: int) -> Seq<MatchEntry> {
    es.map_values(|e: (int, Seq<u8>)| (((e.0 + off) as usize), e.1))
}

/// The characters an all-ASCII byte sequence decodes to.
pub open spec fn chars_of(t: Seq<u8>) -> Seq<char> {
    t.map_values(|b: u8| b as char)
}

/// Two byte ranges share at least one position (touching ranges count as
/// sharing, since neither ends strictly before the other starts).
pub open spec fn ranges_overlap(s1: int, l1: int, s2: int, l2: int) -> bool {
    !(s1 + l1 < s2) && !(s1 > s2 + l2)
}

/// The byte ranges of two matches share at least one position.
pub open spec fn entries_overlap(e1: MatchEntry, e2: MatchEntry) -> bool {
    ranges_overlap(e1.0 as int, e1.1.len() as int, e2.0 as int, e2.1.len() as int)
}

/// Offsets strictly ascending.
pub open spec fn sorted_entries(es: Seq<MatchEntry>) -> bool {
    forall|p: int, q: int| 0 <= p < q < es.len() ==> (#[trigger] es[p]).0 < (#[trigger] es[q]).0
}

/// No two entries' byte ranges overlap.
pub open spec fn no_overlaps(es: Seq<MatchEntry>) -> bool {
    forall|p: int, q: int|
        0 <= p < q < es.len() ==> !entries_overlap(#[trigger] es[p], #[trigger] es[q])
}

/// The overlap walk past the first accepted entry: each candidate is
/// compared against the most recently accepted entry and dropped when
/// their byte ranges overlap.
pub open spec fn resolve_rec(rest: Seq<MatchEntry>, last: MatchEntry) -> Seq<MatchEntry>
    decreases rest.len(),
{
    if rest.len() == 0 {
        Seq::empty()
    } else if entries_overlap(rest[0], last) {
        resolve_rec(rest.drop_first(), last)
    } else {
        seq![rest[0]] + resolve_rec(rest.drop_first(), rest[0])
    }
}

/// Overlap resolution over an offset-sorted match list: the first entry is
/// accepted, and each later one is kept only if it does not overlap the
/// last accepted entry.
pub open spec fn resolve(es: Seq<MatchEntry>) -> Seq<MatchEntry> {
    if es.len() == 0 {
        Seq::empty()
    } else {
        seq![es[0]] + resolve_rec(es.drop_first(), es[0])
    }
}

/// Text with the bell, line feed and carriage return bytes removed.
pub open spec fn strip_bytes(t: Seq<u8>) -> Seq<u8>
    decreases t.len(),
{
    if t.len() == 0 {
        Seq::empty()
    } else if is_stripped_byte(t[0]) {
        strip_bytes(t.drop_first())
    } else {
        seq![t[0]] + strip_bytes(t.drop_first())
    }
}

/// Every entry's text stripped; offsets unchanged.
pub open spec fn strip_all(es: Seq<MatchEntry>) -> Seq<MatchEntry> {
    es.map_values(|e: MatchEntry| (e.0, strip_bytes(e.1)))
}

/// Whether an offset passes the alignment filter. The alignment, when
/// given, is a power of two, so the bit test means divisibility.
pub open spec fn aligned_offset(off: usize, alignment: Option<usize>) -> bool {
    match alignment {
        Option::None => true,
        Option::Some(a) => off & ((a - 1) as usize) == 0,
    }
}

/// The entries whose offsets pass the alignment filter, in order.
pub open spec fn align_filter(es: Seq<MatchEntry>, alignment: Option<usize>) -> Seq<MatchEntry>
    decreases es.len(),
{
    if es.len() == 0 {
        Seq::empty()
    } else if aligned_offset(es[0].0, alignment) {
        seq![es[0]] + align_filter(es.drop_first(), alignment)
    } else {
        align_filter(es.drop_first(), alignment)
    }
}

/// The final result list a merged collection resolves to: overlap
/// resolution, then control-character stripping, then the alignment
/// filter.
pub open spec fn spec_results(es: Seq<MatchEntry>, alignment: Option<usize>) -> Seq<MatchEntry> {
    align_filter(strip_all(resolve(es)), alignment)
}

/// A failure of the scan. Both kinds are defensive: the planner's window
/// ranges are proved in bounds and accepted runs are proved ASCII, so a
/// scan in fact always succeeds.
#[derive(Clone, Copy, Debug)]
pub enum ScanError {
    /// A computed window range fell outside the buffer.
    BufferAccess,
    /// An accepted byte run could not be decoded as text.
    Decode,
}

/// Well-formed match entries: strictly ascending offsets, in-range byte
/// ranges, and texts made of class bytes only.
pub open spec fn wf_entries(es: Seq<MatchEntry>) -> bool {
    &&& forall|p: int, q: int| 0 <= p < q < es.len() ==> (#[trigger] es[p]).0 < (#[trigger] es[q]).0
    &&& forall|p: int| 0 <= p < es.len() ==> (#[trigger] es[p]).0 + es[p].1.len() <= usize::MAX
    &&& forall|p: int, t: int|
        0 <= p < es.len() && 0 <= t < es[p].1.len() ==> is_class_byte(#[trigger] es[p].1[t])
}

/// The view of a vector of owned matches.
pub open spec fn eview(es: Seq<(usize, Vec<u8>)>) -> Seq<MatchEntry> {
    es.map_values(|e: (usize, Vec<u8>)| (e.0, e.1@))
}

/// Merge of two offset-sorted match lists into one: ascending interleave;
/// on equal offsets the right-hand entry wins, as a later window's copy of
/// the same match replaces an earlier one.
pub open spec fn merge_seq(a: Seq<MatchEntry>, b: Seq<MatchEntry>) -> Seq<MatchEntry>
    decreases a.len() + b.len(),
{
    if a.len() == 0 {
        b
    } else if b.len() == 0 {
        a
    } else if a[0].0 < b[0].0 {
        seq![a[0]] + merge_seq(a.drop_first(), b)
    } else if b[0].0 < a[0].0 {
        seq![b[0]] + merge_seq(a, b.drop_first())
    } else {
        seq![b[0]] + merge_seq(a.drop_first(), b.drop_first())
    }
}

/// A merge of well-formed match lists is well-formed, and every entry of
/// it comes from one of the two sides.
pub proof fn lemma_merge_seq_wf(a: Seq<MatchEntry>, b: Seq<MatchEntry>)
    requires
        wf_entries(a),
        wf_entries(b),
    ensures
        wf_entries(merge_seq(a, b)),
        forall|i: int|
            0 <= i < merge_seq(a, b).len() ==> a.contains(#[trigger] merge_seq(a, b)[i])
                || b.contains(merge_seq(a, b)[i]),
    decreases a.len() + b.len(),
{
    let m = merge_seq(a, b);
    if a.len() == 0 || b.len() == 0 {
        assert(forall|i: int| 0 <= i < a.len() ==> a.contains(#[trigger] a[i]));
        assert(forall|i: int| 0 <= i < b.len() ==> b.contains(#[trigger] b[i]));
    } else {
        let a1 = a.drop_first();
        let b1 = b.drop_first();
        assert(wf_entries(a1)) by {
            assert(forall|p: int| 0 <= p < a1.len() ==> a1[p] == a[p + 1]);
        }
        assert(wf_entries(b1)) by {
            assert(forall|p: int| 0 <= p < b1.len() ==> b1[p] == b[p + 1]);
        }
        let h = if a[0].0 < b[0].0 { a[0] } else { b[0] };
        let rest = if a[0].0 < b[0].0 {
            merge_seq(a1, b)
        } else if b[0].0 < a[0].0 {
            merge_seq(a, b1)
        } else {
            merge_seq(a1, b1)
        };
        if a[0].0 < b[0].0 {
            lemma_merge_seq_wf(a1, b);
        } else if b[0].0 < a[0].0 {
            lemma_merge_seq_wf(a, b1);
        } else {
            lemma_merge_seq_wf(a1, b1);
        }
        assert(m == seq![h] + rest);
        assert forall|q: int| 0 <= q < rest.len() implies h.0 < (#[trigger] rest[q]).0 by {
            assert(a1.contains(rest[q]) || a.contains(rest[q]) || b1.contains(rest[q])
                || b.contains(rest[q]));
            let e = rest[q];
            if a1.contains(e) {
                let w = choose|w: int| 0 <= w < a1.len() && a1[w] == e;
                assert(a1[w] == a[w + 1]);
                assert(a[0].0 < a[w + 1].0);
            } else if b1.contains(e) {
                let w = choose|w: int| 0 <= w < b1.len() && b1[w] == e;
                assert(b1[w] == b[w + 1]);
                assert(b[0].0 < b[w + 1].0);
            } else if a.contains(e) {
                let w = choose|w: int| 0 <= w < a.len() && a[w] == e;
                if w > 0 {
                    assert(a[0].0 < a[w].0);
                }
            } else {
                let w = choose|w: int| 0 <= w < b.len() && b[w] == e;
                if w > 0 {
                    assert(b[0].0 < b[w].0);
                }
            }
        }
        assert(wf_entries(m)) by {
            assert(forall|p: int| 0 < p < m.len() ==> m[p] == rest[p - 1]);
            assert(m[0] == h);
        }
        assert forall|i: int| 0 <= i < m.len() implies a.contains(#[trigger] m[i]) || b.contains(
            m[i],
        ) by {
            if i == 0 {
                assert(a.contains(a[0]));
                assert(b.contains(b[0]));
            } else {
                let e = rest[i - 1];
                assert(a1.contains(e) || b1.contains(e) || a.contains(e) || b.contains(e));
                if a1.contains(e) {
                    let w = choose|w: int| 0 <= w < a1.len() && a1[w] == e;
                    assert(a[w + 1] == e);
                }
                if b1.contains(e) {
                    let w = choose|w: int| 0 <= w < b1.len() && b1[w] == e;
                    assert(b[w + 1] == e);
                }
            }
        }
    }
}

fn clone_bytes(v: &Vec<u8>) -> (r: Vec<u8>)
    ensures
        r@ == v@,
{
    slice_to_vec(v.as_slice())
}

/// One accepted result: absolute offset and decoded text.
#[derive(Debug, Clone)]
pub struct ZStringResult(usize, String);

impl View for ZStringResult {
    type V = (usize, Seq<char>);

    closed spec fn view(&self) -> (usize, Seq<char>) {
        (self.0, self.1@)
    }
}

impl ZStringResult {
    /// ASCII text whose byte range stays within address space.
    pub closed spec fn wf(&self) -> bool {
        vstd::utf8::is_ascii_chars(self.1@) && self.0 + self.1@.len() <= usize::MAX
    }

    pub fn offset(&self) -> (r: usize)
        ensures
            r == self@.0,
    {
        self.0
    }

    pub fn string(&self) -> (r: String)
        ensures
            r@ == self@.1,
    {
        self.1.clone()
    }

    pub fn overlaps(&self, other: &ZStringResult) -> (r: bool)
        requires
            self.wf(),
            other.wf(),
        ensures
            r == ranges_overlap(
                self@.0 as int,
                self@.1.len() as int,
                other@.0 as int,
                other@.1.len() as int,
            ),
    {
        proof {
            vstd::utf8::is_ascii_chars_encode_utf8(self.1@);
            vstd::utf8::is_ascii_chars_encode_utf8(other.1@);
        }
        let s1 = self.0;
        let e1 = s1 + self.1.as_str().len();
        let s2 = other.0;
        let e2 = s2 + other.1.as_str().len();

        if e1 < s2 {
            return false;
        }
        if s1 > e2 {
            return false;
        }
        true
    }
}

/// Relies on `String::from_utf8`: ASCII bytes are valid UTF-8 and decode
/// one byte to one character with the same code point.
#[verifier::external_body]
fn ascii_to_string(bytes: &Vec<u8>) -> (r: String)
    requires
        forall|t: int| 0 <= t < bytes@.len() ==> bytes@[t] < 0x80,
    ensures
        r@ == chars_of(bytes@),
{
    String::from_utf8(bytes.clone()).unwrap()
}

fn byte_is_class(b: u8) -> (r: bool)
    ensures
        r == is_class_byte(b),
{
    b == 9 || b == 10 || b == 13 || (0x20 <= b && b <= 0x7e)
}

fn bytes_ascii(v: &Vec<u8>) -> (r: bool)
    ensures
        r == forall|t: int| 0 <= t < v@.len() ==> v@[t] < 0x80,
{
    let mut t: usize = 0;
    while t < v.len()
        invariant
            0 <= t <= v@.len(),
            forall|q: int| 0 <= q < t ==> v@[q] < 0x80,
        decreases v@.len() - t,
    {
        if v[t] >= 0x80 {
            return false;
        }
        t += 1;
    }
    true
}

/// The offset-keyed collection of candidate matches gathered from the
/// scanned windows, held in ascending offset order.
#[derive(Clone)]
pub struct ZStrings(Vec<(usize, Vec<u8>)>);

impl View for ZStrings {
    type V = Seq<MatchEntry>;

    closed spec fn view(&self) -> Seq<MatchEntry> {
        eview(self.0@)
    }
}

impl Default for ZStrings {
    fn default() -> (r: Self)
        ensures
            r@ == Seq::<MatchEntry>::empty(),
            r.wf(),
    {
        ZStrings(Vec::new())
    }
}

impl ZStrings {
    pub open spec fn wf(&self) -> bool {
        wf_entries(self@)
    }

    /// Scans one window: finds every maximal run of at least `length`
    /// class bytes immediately followed by a NUL terminator, and records
    /// it at its absolute offset (`offset` plus its window position).
    pub fn new(offset: usize, chunk: &[u8], length: usize) -> (r: Result<ZStrings, ScanError>)
        requires
            offset + chunk@.len() <= usize::MAX,
        ensures
            r matches Ok(z) && z@ == shift_entries(scan_from(chunk@, length as int, 0), offset as int)
                && z.wf(),
    {
        let ghost s = chunk@;
        let ghost n = length as int;
        let len = chunk.len();
        let mut entries: Vec<(usize, Vec<u8>)> = Vec::new();
        let mut i: usize = 0;
        while i < len
            invariant
                0 <= i <= len,
                len == s.len(),
                s == chunk@,
                n == length as int,
                offset + len <= usize::MAX,
                eview(entries@) + shift_entries(scan_from(s, n, i as int), offset as int)
                    =~~= shift_entries(scan_from(s, n, 0), offset as int),
                wf_entries(eview(entries@)),
                forall|p: int|
                    0 <= p < entries@.len() ==> (#[trigger] entries@[p]).0 + entries@[p].1@.len()
                        < offset + i,
            decreases len - i,
        {
            let mut j: usize = i;
            while j < len && byte_is_class(*slice_index_get(chunk, j))
                invariant
                    i <= j <= len,
                    len == s.len(),
                    s == chunk@,
                    run_len(s, i as int) == (j - i) + run_len(s, j as int),
                    forall|t: int| i <= t < j ==> is_class_byte(s[t]),
                decreases len - j,
            {
                j += 1;
            }
            assert(run_len(s, j as int) == 0);
            let ghost k = run_len(s, i as int) as int;
            assert(k == j - i);
            let ghost scan_here = scan_from(s, n, i as int);
            if j < len && *slice_index_get(chunk, j) == 0 && j - i >= length {
                let text = slice_to_vec(slice_subrange(chunk, i, j));
                if !bytes_ascii(&text) {
                    // cannot happen: class bytes are ASCII
                    return Err(ScanError::Decode);
                }
                let ghost old_entries = entries@;
                entries.push((offset + i, text));
                proof {
                    assert(scan_here == seq![(i as int, s.subrange(i as int, j as int))] + scan_from(
                        s,
                        n,
                        j + 1,
                    ));
                    assert(eview(entries@) =~~= eview(old_entries).push(
                        ((offset + i) as usize, s.subrange(i as int, j as int)),
                    ));
                    assert(eview(entries@) + shift_entries(scan_from(s, n, j + 1), offset as int)
                        =~~= shift_entries(scan_from(s, n, 0), offset as int));
                }
            } else {
                proof {
                    if j < len {
                        assert(scan_here == scan_from(s, n, j + 1));
                    } else {
                        assert(scan_here =~~= Seq::<(int, Seq<u8>)>::empty());
                        assert(scan_from(s, n, len as int) =~~= Seq::<(int, Seq<u8>)>::empty());
                    }
                }
            }
            if j < len {
                i = j + 1;
            } else {
                i = len;
            }
        }
        assert(eview(entries@) =~~= shift_entries(scan_from(s, n, 0), offset as int));
        Ok(ZStrings(entries))
    }

    /// Combines two merged collections. The interleave keeps offsets
    /// ascending; on a duplicate offset the entry of `other` replaces the
    /// one already held, as when a later window re-detects a match.
    pub fn merge(self, other: ZStrings) -> (r: ZStrings)
        requires
            self.wf(),
            other.wf(),
        ensures
            r@ == merge_seq(self@, other@),
            r.wf(),
    {
        let ghost av = self@;
        let ghost bv = other@;
        let a = self.0;
        let b = other.0;
        let mut out: Vec<(usize, Vec<u8>)> = Vec::new();
        let mut i: usize = 0;
        let mut j: usize = 0;
        proof {
            assert(av.skip(0) =~~= av);
            assert(bv.skip(0) =~~= bv);
            assert(eview(out@) =~~= Seq::<MatchEntry>::empty());
            assert(merge_seq(av, bv) =~~= eview(out@) + merge_seq(av.skip(0), bv.skip(0)));
        }
        while i < a.len() || j < b.len()
            invariant
                0 <= i <= a@.len(),
                0 <= j <= b@.len(),
                av == eview(a@),
                bv == eview(b@),
                merge_seq(av, bv) =~~= eview(out@) + merge_seq(
                    av.skip(i as int),
                    bv.skip(j as int),
                ),
            decreases a@.len() - i + b@.len() - j,
        {
            let ghost ra = av.skip(i as int);
            let ghost rb = bv.skip(j as int);
            proof {
                if i < a@.len() {
                    assert(ra[0] == av[i as int]);
                    assert(ra.drop_first() =~~= av.skip(i + 1));
                }
                if j < b@.len() {
                    assert(rb[0] == bv[j as int]);
                    assert(rb.drop_first() =~~= bv.skip(j + 1));
                }
            }
            let ghost old_out = out@;
            if i < a.len() && (j >= b.len() || a[i].0 < b[j].0) {
                let e = (a[i].0, clone_bytes(&a[i].1));
                out.push(e);
                i += 1;
            } else if j < b.len() && (i >= a.len() || b[j].0 < a[i].0) {
                let e = (b[j].0, clone_bytes(&b[j].1));
                out.push(e);
                j += 1;
            } else {
                let e = (b[j].0, clone_bytes(&b[j].1));
                out.push(e);
                i += 1;
                j += 1;
            }
            proof {
                assert(eview(out@) =~~= eview(old_out).push(
                    (out@[out@.len() - 1].0, out@[out@.len() - 1].1@),
                ));
                assert(merge_seq(av, bv) =~~= eview(out@) + merge_seq(
                    av.skip(i as int),
                    bv.skip(j as int),
                ));
            }
        }
        proof {
            assert(merge_seq(av.skip(i as int), bv.skip(j as int)) =~~= Seq::<
                MatchEntry,
            >::empty());
            assert(merge_seq(av, bv) =~~= eview(out@));
            lemma_merge_seq_wf(av, bv);
        }
        ZStrings(out)
    }
}

fn byte_is_stripped(b: u8) -> (r: bool)
    ensures
        r == is_stripped_byte(b),
{
    b == 7 || b == 10 || b == 13
}

fn strip_vec(v: &Vec<u8>) -> (r: Vec<u8>)
    ensures
        r@ == strip_bytes(v@),
{
    let mut kept: Vec<u8> = Vec::new();
    let mut t: usize = 0;
    proof {
        assert(v@.skip(0) =~= v@);
    }
    while t < v.len()
        invariant
            0 <= t <= v@.len(),
            strip_bytes(v@) =~= kept@ + strip_bytes(v@.skip(t as int)),
        decreases v@.len() - t,
    {
        proof {
            assert(v@.skip(t as int)[0] == v@[t as int]);
            assert(v@.skip(t as int).drop_first() =~= v@.skip(t as int + 1));
        }
        if !byte_is_stripped(v[t]) {
            kept.push(v[t]);
        }
        t += 1;
    }
    proof {
        assert(strip_bytes(v@) =~= kept@);
    }
    kept
}

impl ZStrings {
    /// How many distinct offsets the merged collection holds.
    pub fn len(&self) -> (n: usize)
        ensures
            n == self@.len(),
    {
        self.0.len()
    }

    /// The decoded text recorded at `offset`, if any.
    pub fn get(&self, offset: usize) -> (r: Option<String>)
        requires
            self.wf(),
        ensures
            r matches Some(s) ==> exists|j: int|
                0 <= j < self@.len() && (#[trigger] self@[j]).0 == offset && s@ == chars_of(
                    self@[j].1,
                ),
            r is None ==> forall|j: int| 0 <= j < self@.len() ==> (#[trigger] self@[j]).0 != offset,
    {
        let mut j: usize = 0;
        while j < self.0.len()
            invariant
                0 <= j <= self.0@.len(),
                self@ == eview(self.0@),
                self.wf(),
                forall|p: int| 0 <= p < j ==> (#[trigger] self@[p]).0 != offset,
            decreases self.0@.len() - j,
        {
            if self.0[j].0 == offset {
                proof {
                    assert(self@[j as int] == (self.0@[j as int].0, self.0@[j as int].1@));
                }
                return Some(ascii_to_string(&self.0[j].1));
            }
            j += 1;
        }
        None
    }

    /// Resolves the merged collection into the final result list: walks
    /// the offset-sorted entries discarding each one whose byte range
    /// overlaps the last accepted entry, strips the bell, line feed and
    /// carriage return characters from what survived, and, when an
    /// alignment (a power of two) is given, keeps only the offsets it
    /// divides.
    pub fn results(&self, alignment: Option<usize>) -> (r: Vec<ZStringResult>)
        requires
            self.wf(),
            alignment matches Some(a) ==> crate::arg::is_pow2(a),
        ensures
            r@.len() == spec_results(self@, alignment).len(),
            forall|i: int|
                0 <= i < r@.len() ==> (#[trigger] r@[i])@.0 == spec_results(self@, alignment)[i].0
                    && r@[i]@.1 == chars_of(spec_results(self@, alignment)[i].1) && r@[i].wf(),
    {
        let ghost es = self@;
        let src = &self.0;
        // overlap resolution against the most recently accepted entry
        let mut distinct: Vec<(usize, Vec<u8>)> = Vec::new();
        let ghost mut glast: MatchEntry = (0usize, Seq::empty());
        let mut idx: usize = 0;
        while idx < src.len()
            invariant
                0 <= idx <= src@.len(),
                es == eview(src@),
                wf_entries(es),
                idx == 0 ==> distinct@.len() == 0,
                idx > 0 ==> distinct@.len() > 0 && glast == (
                    distinct@.last().0,
                    distinct@.last().1@,
                ) && glast.0 + glast.1.len() <= usize::MAX && resolve(es) =~~= eview(distinct@)
                    + resolve_rec(es.skip(idx as int), glast),
            decreases src@.len() - idx,
        {
            proof {
                assert(es[idx as int] == (src@[idx as int].0, src@[idx as int].1@));
            }
            let ghost old_distinct = distinct@;
            if distinct.len() == 0 {
                let e = (src[idx].0, clone_bytes(&src[idx].1));
                distinct.push(e);
                proof {
                    glast = es[0];
                    assert(eview(distinct@) =~~= seq![es[0]]);
                    assert(es.skip(1) =~~= es.drop_first());
                    assert(resolve(es) =~~= eview(distinct@) + resolve_rec(es.skip(1), glast));
                }
            } else {
                let last_i = distinct.len() - 1;
                let o2 = distinct[last_i].0;
                let l2 = distinct[last_i].1.len();
                let o1 = src[idx].0;
                let l1 = src[idx].1.len();
                let ghost rest = es.skip(idx as int);
                proof {
                    assert(rest[0] == es[idx as int]);
                    assert(rest.drop_first() =~~= es.skip(idx as int + 1));
                    assert(es[idx as int].0 + es[idx as int].1.len() <= usize::MAX);
                }
                let ov = !(o1 + l1 < o2) && !(o1 > o2 + l2);
                proof {
                    assert(ov == entries_overlap(rest[0], glast));
                }
                if !ov {
                    let e = (src[idx].0, clone_bytes(&src[idx].1));
                    distinct.push(e);
                    proof {
                        assert(resolve_rec(rest, glast) == seq![rest[0]] + resolve_rec(
                            rest.drop_first(),
                            rest[0],
                        ));
                        glast = es[idx as int];
                        assert(eview(distinct@) =~~= eview(old_distinct).push(glast));
                        assert(resolve(es) =~~= eview(distinct@) + resolve_rec(
                            es.skip(idx as int + 1),
                            glast,
                        ));
                    }
                } else {
                    proof {
                        assert(resolve_rec(rest, glast) == resolve_rec(rest.drop_first(), glast));
                        assert(resolve(es) =~~= eview(distinct@) + resolve_rec(
                            es.skip(idx as int + 1),
                            glast,
                        ));
                    }
                }
            }
            idx += 1;
        }
        proof {
            if es.len() == 0 {
                assert(resolve(es) =~~= eview(distinct@));
            } else {
                assert(es.skip(es.len() as int) =~~= Seq::<MatchEntry>::empty());
                assert(resolve(es) =~~= eview(distinct@));
            }
        }
        // strip the control characters from every accepted text
        let mut stripped: Vec<(usize, Vec<u8>)> = Vec::new();
        let mut d: usize = 0;
        while d < distinct.len()
            invariant
                0 <= d <= distinct@.len(),
                stripped@.len() == d,
                forall|p: int|
                    0 <= p < d ==> (#[trigger] stripped@[p]).0 == distinct@[p].0
                        && stripped@[p].1@ == strip_bytes(distinct@[p].1@),
            decreases distinct@.len() - d,
        {
            let t = strip_vec(&distinct[d].1);
            stripped.push((distinct[d].0, t));
            d += 1;
        }
        let ghost ss = strip_all(resolve(es));
        proof {
            assert(eview(stripped@) =~~= ss);
        }
        // alignment filter
        let mut fin: Vec<(usize, Vec<u8>)> = Vec::new();
        let mut f: usize = 0;
        proof {
            assert(ss.skip(0) =~~= ss);
        }
        while f < stripped.len()
            invariant
                0 <= f <= stripped@.len(),
                ss == eview(stripped@),
                alignment matches Some(a) ==> crate::arg::is_pow2(a),
                align_filter(ss, alignment) =~~= eview(fin@) + align_filter(
                    ss.skip(f as int),
                    alignment,
                ),
            decreases stripped@.len() - f,
        {
            let ghost old_fin = fin@;
            proof {
                assert(ss.skip(f as int)[0] == ss[f as int]);
                assert(ss.skip(f as int).drop_first() =~~= ss.skip(f as int + 1));
                assert(ss[f as int] == (stripped@[f as int].0, stripped@[f as int].1@));
            }
            let keep = match alignment {
                Option::None => true,
                Option::Some(a) => stripped[f].0 & (a - 1) == 0,
            };
            proof {
                assert(keep == aligned_offset(ss[f as int].0, alignment));
            }
            if keep {
                let e = (stripped[f].0, clone_bytes(&stripped[f].1));
                fin.push(e);
                proof {
                    assert(eview(fin@) =~~= eview(old_fin).push(ss[f as int]));
                }
            }
            proof {
                assert(align_filter(ss, alignment) =~~= eview(fin@) + align_filter(
                    ss.skip(f as int + 1),
                    alignment,
                ));
            }
            f += 1;
        }
        let ghost sr = spec_results(es, alignment);
        proof {
            assert(ss.skip(stripped@.len() as int) =~~= Seq::<MatchEntry>::empty());
            assert(eview(fin@) =~~= sr);
        }
        // decode the surviving byte runs
        let mut out: Vec<ZStringResult> = Vec::new();
        let mut c: usize = 0;
        while c < fin.len()
            invariant
                0 <= c <= fin@.len(),
                wf_entries(es),
                sr == spec_results(es, alignment),
                sr == eview(fin@),
                out@.len() == c,
                forall|p: int|
                    0 <= p < c ==> (#[trigger] out@[p])@.0 == sr[p].0 && out@[p]@.1 == chars_of(
                        sr[p].1,
                    ) && out@[p].wf(),
            decreases fin@.len() - c,
        {
            proof {
                crate::laws::lemma_spec_results_props(es, alignment);
                assert(sr[c as int] == (fin@[c as int].0, fin@[c as int].1@));
            }
            let text = ascii_to_string(&fin[c].1);
            let zr = ZStringResult(fin[c].0, text);
            proof {
                assert(zr.wf()) by {
                    assert(forall|t: int|
                        0 <= t < zr.1@.len() ==> (#[trigger] zr.1@[t]) == (sr[c as int].1[t]
                            as char));
                }
            }
            out.push(zr);
            c += 1;
        }
        out
    }
}

/// End of a window that starts at `x`: the chunk step plus the overlap
/// tail, capped at the buffer's end.
pub open spec fn window_limit(len: int, cl: int, x: int) -> int {
    if x + cl + MAX_STRING_LEN <= len {
        x + cl + MAX_STRING_LEN
    } else {
        len
    }
}

/// The matches one window contributes, at absolute offsets.
pub open spec fn window_entries(s: Seq<u8>, n: int, cl: int, x: int) -> Seq<MatchEntry> {
    shift_entries(scan_from(s.subrange(x, window_limit(s.len() as int, cl, x)), n, 0), x)
}

/// The merged collection after scanning every window from start `x` on,
/// folded left to right into `acc`.
pub open spec fn scan_windows(s: Seq<u8>, n: int, cl: int, x: int, acc: Seq<MatchEntry>) -> Seq<
    MatchEntry,
>
    decreases (if x < s.len() { s.len() - x } else { 0 }) when cl >= 1
{
    if x < 0 || x >= s.len() {
        acc
    } else {
        scan_windows(s, n, cl, x + cl, merge_seq(acc, window_entries(s, n, cl, x)))
    }
}

/// The step between window starts: an equal share of the buffer, but never
/// under the overlap cap.
pub open spec fn spec_chunk_len(len: int, num_chunks: int) -> int {
    if len / num_chunks > MAX_STRING_LEN {
        len / num_chunks
    } else {
        MAX_STRING_LEN as int
    }
}

impl ZStrings {
    /// Scans the whole buffer window by window — each window one chunk
    /// step plus the overlap tail — and merges every window's matches into
    /// one offset-keyed collection. Each window is independent of the
    /// others, so callers may scan them in any order or concurrently;
    /// this routine takes them in ascending order.
    pub fn new_parallel(data: &[u8], length: usize, num_chunks: usize) -> (r: Result<
        ZStrings,
        ScanError,
    >)
        requires
            num_chunks >= 1,
        ensures
            r matches Ok(z) && z@ == scan_windows(
                data@,
                length as int,
                spec_chunk_len(data@.len() as int, num_chunks as int),
                0,
                Seq::empty(),
            ) && z.wf(),
    {
        let ghost s = data@;
        let ghost n = length as int;
        let len = data.len();
        let q = len / num_chunks;
        let chunk_len = if q > MAX_STRING_LEN {
            q
        } else {
            MAX_STRING_LEN
        };
        let ghost cl = chunk_len as int;
        let mut acc = ZStrings::default();
        let mut x: usize = 0;
        let ghost mut gx: int = 0;
        while x < len
            invariant
                s == data@,
                n == length as int,
                len == s.len(),
                cl == chunk_len as int,
                cl == spec_chunk_len(len as int, num_chunks as int),
                cl >= 1,
                0 <= x <= len,
                gx < len ==> x as int == gx,
                gx >= len ==> x as int == len,
                acc.wf(),
                scan_windows(s, n, cl, 0, Seq::empty()) == scan_windows(s, n, cl, gx, acc@),
            decreases len - x,
        {
            proof {
                assert(gx == x as int);
            }
            let rem = len - x;
            let limit = if rem > chunk_len && rem - chunk_len > MAX_STRING_LEN {
                x + chunk_len + MAX_STRING_LEN
            } else {
                len
            };
            if !(x <= limit && limit <= len) {
                // cannot happen: both window ends are proved in bounds
                return Err(ScanError::BufferAccess);
            }
            assert(limit as int == window_limit(len as int, cl, gx));
            let window = slice_subrange(data, x, limit);
            let zw = match ZStrings::new(x, window, length) {
                Ok(z) => z,
                Err(e) => {
                    return Err(e);
                },
            };
            proof {
                assert(zw@ == window_entries(s, n, cl, gx));
            }
            let ghost old_acc = acc@;
            acc = acc.merge(zw);
            proof {
                assert(scan_windows(s, n, cl, gx, old_acc) == scan_windows(
                    s,
                    n,
                    cl,
                    gx + cl,
                    merge_seq(old_acc, window_entries(s, n, cl, gx)),
                ));
                gx = gx + cl;
            }
            x = if rem > chunk_len {
                x + chunk_len
            } else {
                len
            };
        }
        proof {
            assert(gx >= len);
            assert(scan_windows(s, n, cl, gx, acc@) == acc@);
        }
        Ok(acc)
    }
}

} // verus!
