//! Directory listings of a FAT volume: long file names, carried in UCS-2
//! by the entries before a file's own entry, and the walk over a listing.
use vstd::prelude::*;
use crate::fat::FAT_FREE_ENTRY;
use crate::syscall::{lemma_text_len, text_len};

verus! {

#[verifier::external_type_specification]
#[verifier::external_body]
pub struct ExUcs2Error(ucs2::Error);

/// The UTF-8 bytes of one UCS-2 character: one byte below 0x80, two below
/// 0x800, three otherwise.
pub open spec fn utf8_of(c: u16) -> Seq<u8> {
    if c < 0x80 {
        seq![c as u8]
    } else if c < 0x800 {
        seq![(0xC0 + c / 64) as u8, (0x80 + c % 64) as u8]
    } else {
        seq![(0xE0 + c / 4096) as u8, (0x80 + (c / 64) % 64) as u8, (0x80 + c % 64) as u8]
    }
}

/// The UTF-8 bytes of a UCS-2 string.
pub open spec fn utf8_all(s: Seq<u16>) -> Seq<u8>
    decreases s.len(),
{
    if s.len() == 0 {
        seq![]
    } else {
        utf8_all(s.drop_last()) + utf8_of(s.last())
    }
}

/// Decodes `input` into `output` from `start` on: `ucs2::decode` writes the
/// UTF-8 bytes of each character in turn and returns how many it wrote, or
/// fails when a character does not fit. The bytes before `start` and after
/// the decoded ones stay as they were; on failure nothing is said of the
/// bytes from `start` on.
#[verifier::external_body]
fn decode_into(input: &[u16], output: &mut Vec<u8>, start: usize) -> (r: Result<usize, ucs2::Error>)
    requires
        start <= old(output)@.len(),
    ensures
        final(output)@.len() == old(output)@.len(),
        final(output)@.subrange(0, start as int) == old(output)@.subrange(0, start as int),
        start + utf8_all(input@).len() <= old(output)@.len() ==> {
            &&& r matches Ok(n)
            &&& n == utf8_all(input@).len()
            &&& final(output)@ == old(output)@.subrange(0, start as int) + utf8_all(input@) + old(
                output,
            )@.subrange(start + utf8_all(input@).len(), old(output)@.len() as int)
        },
        start + utf8_all(input@).len() > old(output)@.len() ==> r is Err,
{
    ucs2::decode(input, &mut output[start..])
}

proof fn lemma_utf8_len(s: Seq<u16>)
    ensures
        s.len() <= utf8_all(s).len() <= 3 * s.len(),
    decreases s.len(),
{
    if s.len() > 0 {
        lemma_utf8_len(s.drop_last());
    }
}


/// The index of the first zero character of `s`, or its length when it has
/// none.
pub open spec fn first_zero(s: Seq<u16>) -> int
    decreases s.len(),
{
    if s.len() == 0 {
        0
    } else if s[0] == 0 {
        0
    } else {
        1 + first_zero(s.drop_first())
    }
}

/// The characters of a zero-terminated UCS-2 string.
pub open spec fn name_text(s: Seq<u16>) -> Seq<u16> {
    s.subrange(0, first_zero(s))
}

/// The characters of the string are no UTF-16 surrogates, so that their
/// UTF-8 bytes form valid UTF-8.
pub open spec fn decodable(s: Seq<u16>) -> bool {
    forall|i: int| 0 <= i < first_zero(s) ==> !(0xD800 <= #[trigger] s[i] <= 0xDFFF)
}

/// Room for the UTF-8 bytes of a long-name entry's characters and a
/// terminating zero.
pub const LONG_NAME_BUFFER_SIZE: usize = 79;

proof fn lemma_first_zero(s: Seq<u16>)
    ensures
        0 <= first_zero(s) <= s.len(),
        forall|i: int| 0 <= i < first_zero(s) ==> s[i] != 0,
        first_zero(s) < s.len() ==> s[first_zero(s)] == 0,
    decreases s.len(),
{
    if s.len() > 0 && s[0] != 0 {
        lemma_first_zero(s.drop_first());
        assert forall|i: int| 0 <= i < first_zero(s) implies s[i] != 0 by {
            if i > 0 {
                assert(s[i] == s.drop_first()[i - 1]);
            }
        }
        if first_zero(s) < s.len() {
            assert(s[first_zero(s)] == s.drop_first()[first_zero(s) - 1]);
        }
    }
}

proof fn lemma_utf8_concat(a: Seq<u16>, b: Seq<u16>)
    ensures
        utf8_all(a + b) == utf8_all(a) + utf8_all(b),
    decreases b.len(),
{
    if b.len() == 0 {
        assert(a + b =~= a);
        assert(utf8_all(a) + utf8_all(b) =~= utf8_all(a));
    } else {
        lemma_utf8_concat(a, b.drop_last());
        assert((a + b).drop_last() =~= a + b.drop_last());
        assert((a + b).last() == b.last());
        assert(utf8_all(a) + utf8_all(b) =~= utf8_all(a) + utf8_all(b.drop_last()) + utf8_of(b.last()));
    }
}

proof fn lemma_utf8_nonzero(t: Seq<u16>)
    requires
        forall|i: int| 0 <= i < t.len() ==> t[i] != 0,
    ensures
        forall|j: int| 0 <= j < utf8_all(t).len() ==> utf8_all(t)[j] != 0,
    decreases t.len(),
{
    if t.len() > 0 {
        lemma_utf8_nonzero(t.drop_last());
        let c = t.last();
        assert(c != 0);
        let e = utf8_of(c);
        assert forall|j: int| 0 <= j < e.len() implies e[j] != 0 by {}
        let p = utf8_all(t.drop_last());
        assert forall|j: int| 0 <= j < utf8_all(t).len() implies utf8_all(t)[j] != 0 by {
            if j < p.len() {
                assert(utf8_all(t)[j] == p[j]);
            } else {
                assert(utf8_all(t)[j] == e[j - p.len()]);
            }
        }
    }
}

proof fn lemma_text_len_at(s: Seq<u8>, k: int)
    requires
        0 <= k < s.len(),
        forall|i: int| 0 <= i < k ==> s[i] != 0,
        s[k] == 0,
    ensures
        text_len(s) == k,
{
    lemma_text_len(s);
}

/// The UTF-8 text of a zero-terminated UCS-2 string followed by zero bytes
/// ends where the string does.
proof fn lemma_text_of(s: Seq<u16>, z: Seq<u8>)
    requires
        z.len() > 0,
        z[0] == 0,
    ensures
        text_len(utf8_all(s) + z) == utf8_all(name_text(s)).len(),
        (utf8_all(s) + z).subrange(0, utf8_all(name_text(s)).len() as int) == utf8_all(name_text(s)),
{
    lemma_first_zero(s);
    let k = first_zero(s);
    let t = name_text(s);
    let rest = s.subrange(k, s.len() as int);
    assert(s =~= t + rest);
    lemma_utf8_concat(t, rest);
    lemma_utf8_nonzero(t);
    let b = utf8_all(s) + z;
    let m = utf8_all(t).len() as int;
    assert(utf8_all(s) == utf8_all(t) + utf8_all(rest));
    assert forall|i: int| 0 <= i < m implies b[i] != 0 by {
        assert(b[i] == utf8_all(t)[i]);
    }
    if k < s.len() {
        assert(rest =~= seq![0u16] + rest.drop_first());
        lemma_utf8_concat(seq![0u16], rest.drop_first());
        let one = seq![0u16];
        assert(one.drop_last() =~= Seq::<u16>::empty());
        assert(one.last() == 0);
        assert(utf8_all(one.drop_last()) =~= Seq::<u8>::empty());
        assert(utf8_of(0u16) =~= seq![0u8]);
        assert(utf8_all(one) =~= seq![0u8]);
        assert(b[m] == utf8_all(rest)[0]);
    } else {
        assert(rest.len() == 0);
        assert(utf8_all(rest) =~= Seq::<u8>::empty());
        assert(b[m] == z[0]);
    }
    lemma_text_len_at(b, m);
    assert(b.subrange(0, m) =~= utf8_all(t));
}

/// The text of one long-name entry from its three groups of UCS-2
/// characters: their UTF-8 bytes up to the first zero character.
/// Characters that UTF-8 cannot carry (surrogates) are refused.
pub fn long_name_part(name1: &[u16], name2: &[u16], name3: &[u16]) -> (r: Vec<u8>)
    requires
        name1@.len() == 5,
        name2@.len() == 6,
        name3@.len() == 2,
        decodable(name1@ + name2@ + name3@),
    ensures
        r@ == utf8_all(name_text(name1@ + name2@ + name3@)),
{
    let mut buffer: Vec<u8> = Vec::new();
    while buffer.len() < LONG_NAME_BUFFER_SIZE
        invariant
            buffer@.len() <= LONG_NAME_BUFFER_SIZE,
            forall|i: int| 0 <= i < buffer@.len() ==> buffer@[i] == 0,
        decreases LONG_NAME_BUFFER_SIZE - buffer@.len(),
    {
        buffer.push(0);
    }
    proof {
        lemma_utf8_len(name1@);
        lemma_utf8_len(name2@);
        lemma_utf8_len(name3@);
    }
    let ghost zeros = buffer@;
    let n1 = match decode_into(name1, &mut buffer, 0) {
        Ok(n) => n,
        Err(_) => {
            proof {
                assert(false);
            }
            0
        },
    };
    let ghost after1 = buffer@;
    let n2 = match decode_into(name2, &mut buffer, n1) {
        Ok(n) => n,
        Err(_) => {
            proof {
                assert(false);
            }
            0
        },
    };
    let ghost after2 = buffer@;
    let n3 = match decode_into(name3, &mut buffer, n1 + n2) {
        Ok(n) => n,
        Err(_) => {
            proof {
                assert(false);
            }
            0
        },
    };
    let ghost all = name1@ + name2@ + name3@;
    let ghost tail = zeros.subrange((n1 + n2 + n3) as int, LONG_NAME_BUFFER_SIZE as int);
    proof {
        lemma_utf8_concat(name1@, name2@);
        lemma_utf8_concat(name1@ + name2@, name3@);
        assert(after1 =~= utf8_all(name1@) + zeros.subrange(n1 as int, LONG_NAME_BUFFER_SIZE as int));
        assert(after2 =~= utf8_all(name1@) + utf8_all(name2@) + zeros.subrange((n1 + n2) as int, LONG_NAME_BUFFER_SIZE as int));
        assert(buffer@ =~= utf8_all(all) + tail);
        assert(tail[0] == 0);
        lemma_text_of(all, tail);
    }
    crate::syscall::write_syscall_text(buffer.as_slice())
}

/// Attribute byte that marks a long-name directory entry.
pub const LONG_NAME_ATTRIBUTE: u8 = 0x0F;

/// The `n` little-endian UCS-2 characters of `b` from byte `start` on.
pub open spec fn le_units(b: Seq<u8>, start: int, n: int) -> Seq<u16> {
    Seq::new(n as nat, |i: int| (b[start + 2 * i] + 256 * b[start + 2 * i + 1]) as u16)
}

/// The three groups of characters of a long-name entry.
pub struct LongNameChars {
    pub name1: Vec<u16>,
    pub name2: Vec<u16>,
    pub name3: Vec<u16>,
}

/// The `n` little-endian UCS-2 characters of `entry` from byte `start` on.
fn read_units(entry: &[u8], start: usize, n: usize) -> (r: Vec<u16>)
    requires
        start + 2 * n <= entry@.len(),
    ensures
        r@ == le_units(entry@, start as int, n as int),
{
    let len = entry.len();
    let mut units: Vec<u16> = Vec::new();
    let mut i: usize = 0;
    while i < n
        invariant
            i <= n,
            len == entry@.len(),
            start + 2 * n <= len,
            units@ == le_units(entry@, start as int, i as int),
        decreases n - i,
    {
        let lo = entry[start + 2 * i] as u16;
        let hi = entry[start + 2 * i + 1] as u16;
        units.push(lo + 256 * hi);
        i = i + 1;
        proof {
            assert(units@ =~= le_units(entry@, start as int, i as int));
        }
    }
    units
}

/// The name characters of a 32-byte directory entry when its attribute byte
/// (byte 11) marks a long-name entry: five at byte 1, six at byte 14 and two
/// at byte 28, each two bytes little-endian. Any other entry gives `None`.
pub fn long_name_chars(entry: &[u8]) -> (r: Option<LongNameChars>)
    requires
        entry@.len() == 32,
    ensures
        r is Some <==> entry@[11] == LONG_NAME_ATTRIBUTE,
        r matches Some(c) ==> {
            &&& c.name1@ == le_units(entry@, 1, 5)
            &&& c.name2@ == le_units(entry@, 14, 6)
            &&& c.name3@ == le_units(entry@, 28, 2)
        },
{
    if entry[11] != LONG_NAME_ATTRIBUTE {
        return None;
    }
    Some(
        LongNameChars {
            name1: read_units(entry, 1, 5),
            name2: read_units(entry, 14, 6),
            name3: read_units(entry, 28, 2),
        },
    )
}

/// Whether the characters before the first zero of `units` are free of
/// UTF-16 surrogates.
pub fn is_decodable(units: &[u16]) -> (r: bool)
    ensures
        r == decodable(units@),
{
    proof {
        lemma_first_zero(units@);
    }
    let mut i: usize = 0;
    while i < units.len() && units[i] != 0
        invariant
            i <= units@.len(),
            0 <= first_zero(units@) <= units@.len(),
            forall|k: int| 0 <= k < first_zero(units@) ==> units@[k] != 0,
            first_zero(units@) < units@.len() ==> units@[first_zero(units@)] == 0,
            i <= first_zero(units@),
            forall|k: int| 0 <= k < i ==> !(0xD800 <= #[trigger] units@[k] <= 0xDFFF),
        decreases units@.len() - i,
    {
        if 0xD800 <= units[i] && units[i] <= 0xDFFF {
            return false;
        }
        i = i + 1;
    }
    true
}

/// The 32-byte short directory entry `entry` with its file size (bytes 28
/// to 31, little-endian) set to `size`; every other byte stays.
pub fn short_entry_with_size(entry: &[u8], size: u32) -> (r: Vec<u8>)
    requires
        entry@.len() == 32,
    ensures
        r@.len() == 32,
        forall|i: int| 0 <= i < 28 ==> #[trigger] r@[i] == entry@[i],
        r@[28] == size % 256,
        r@[29] == (size / 256) % 256,
        r@[30] == (size / 65536) % 256,
        r@[31] == size / 16777216,
{
    let mut r: Vec<u8> = Vec::new();
    let mut i: usize = 0;
    while i < 28
        invariant
            i <= 28,
            entry@.len() == 32,
            r@.len() == i,
            forall|k: int| 0 <= k < i ==> #[trigger] r@[k] == entry@[k],
        decreases 28 - i,
    {
        r.push(entry[i]);
        i = i + 1;
    }
    r.push((size % 256) as u8);
    r.push(((size / 256) % 256) as u8);
    r.push(((size / 65536) % 256) as u8);
    r.push((size / 16777216) as u8);
    r
}

/// The parts of `p` between slashes, as splitting a string at `'/'` gives
/// them: one more part than there are slashes, empty parts included.
pub open spec fn split_slash(p: Seq<u8>) -> Seq<Seq<u8>>
    decreases p.len(),
{
    if p.len() == 0 {
        seq![Seq::<u8>::empty()]
    } else {
        let rest = split_slash(p.drop_last());
        if p.last() == 0x2F {
            rest.push(Seq::<u8>::empty())
        } else {
            rest.update(rest.len() - 1, rest.last().push(p.last()))
        }
    }
}

proof fn lemma_split_slash_len(p: Seq<u8>)
    ensures
        split_slash(p).len() >= 1,
    decreases p.len(),
{
    if p.len() > 0 {
        lemma_split_slash_len(p.drop_last());
    }
}

/// The parts of the path `path` between slashes.
pub fn split_path(path: &[u8]) -> (r: Vec<Vec<u8>>)
    ensures
        r@.len() == split_slash(path@).len(),
        forall|i: int| 0 <= i < r@.len() ==> #[trigger] r@[i]@ == split_slash(path@)[i],
{
    let mut parts: Vec<Vec<u8>> = Vec::new();
    parts.push(Vec::new());
    let mut i: usize = 0;
    proof {
        assert(path@.take(0) =~= Seq::<u8>::empty());
    }
    while i < path.len()
        invariant
            i <= path@.len(),
            parts@.len() == split_slash(path@.take(i as int)).len(),
            parts@.len() >= 1,
            forall|k: int| 0 <= k < parts@.len() ==> #[trigger] parts@[k]@ == split_slash(path@.take(i as int))[k],
        decreases path@.len() - i,
    {
        proof {
            assert(path@.take(i + 1).drop_last() =~= path@.take(i as int));
        }
        let b = path[i];
        if b == 0x2F {
            parts.push(Vec::new());
        } else {
            let last = parts.len() - 1;
            let mut part = parts.remove(last);
            part.push(b);
            parts.push(part);
        }
        i = i + 1;
        proof {
            let s = split_slash(path@.take(i as int));
            assert forall|k: int| 0 <= k < parts@.len() implies #[trigger] parts@[k]@ == s[k] by {}
        }
    }
    proof {
        assert(path@.take(path@.len() as int) =~= path@);
    }
    parts
}

/// The index of the first of `names` equal to `name`, if any.
pub fn find_name(names: &[Vec<u8>], name: &[u8]) -> (r: Option<usize>)
    ensures
        match r {
            Some(i) => i < names@.len() && names@[i as int]@ == name@ && forall|j: int|
                0 <= j < i ==> (#[trigger] names@[j])@ != name@,
            None => forall|j: int| 0 <= j < names@.len() ==> (#[trigger] names@[j])@ != name@,
        },
{
    let mut i: usize = 0;
    while i < names.len()
        invariant
            i <= names@.len(),
            forall|j: int| 0 <= j < i ==> (#[trigger] names@[j])@ != name@,
        decreases names@.len() - i,
    {
        if bytes_equal(names[i].as_slice(), name) {
            return Some(i);
        }
        i = i + 1;
    }
    None
}

/// Whether `a` and `b` hold the same bytes.
fn bytes_equal(a: &[u8], b: &[u8]) -> (r: bool)
    ensures
        r == (a@ == b@),
{
    if a.len() != b.len() {
        return false;
    }
    let mut i: usize = 0;
    while i < a.len()
        invariant
            i <= a@.len(),
            a@.len() == b@.len(),
            forall|j: int| 0 <= j < i ==> a@[j] == b@[j],
        decreases a@.len() - i,
    {
        if a[i] != b[i] {
            return false;
        }
        i = i + 1;
    }
    proof {
        assert(a@ =~= b@);
    }
    true
}

/// The first cluster that a short directory entry records: the high half in
/// bytes 20 and 21, the low half in bytes 26 and 27, each little-endian.
pub fn entry_first_cluster(entry: &[u8]) -> (r: u32)
    requires
        entry@.len() == 32,
    ensures
        r == spec_first_cluster(entry@),
{
    let high = entry[20] as u32 + 256 * entry[21] as u32;
    let low = entry[26] as u32 + 256 * entry[27] as u32;
    high * 65536 + low
}

/// The first cluster that the 32-byte short entry `e` records.
pub open spec fn spec_first_cluster(e: Seq<u8>) -> int {
    (e[20] + 256 * e[21]) * 65536 + e[26] + 256 * e[27]
}

/// What one listing of a directory cluster means to a lookup of the path
/// part it is at.
#[derive(Clone, Copy, PartialEq, Eq, Structural, Debug)]
pub enum PathStep {
    /// The last part of the path is the listed file at this index.
    Found(usize),
    /// The part is the listed directory at this index; the lookup goes on
    /// in its first cluster.
    Descend(usize, u32),
    /// No listed file has the part's name.
    NotHere,
}

/// A path lookup at path part `part` over one listing, whose files have the
/// names `names` and the short entries `entries`: the first file with that
/// name is the result when `part` is the last part of the path, else the
/// directory to go on in; no such file leaves the lookup where it is.
pub fn path_step(names: &[Vec<u8>], entries: &[Vec<u8>], part: &[u8], is_last: bool) -> (r: PathStep)
    requires
        names@.len() == entries@.len(),
        forall|i: int| 0 <= i < entries@.len() ==> (#[trigger] entries@[i])@.len() == 32,
    ensures
        match r {
            PathStep::NotHere => forall|j: int| 0 <= j < names@.len() ==> (#[trigger] names@[j])@ != part@,
            PathStep::Found(i) => {
                &&& is_last
                &&& i < names@.len()
                &&& names@[i as int]@ == part@
                &&& forall|j: int| 0 <= j < i ==> (#[trigger] names@[j])@ != part@
            },
            PathStep::Descend(i, cluster) => {
                &&& !is_last
                &&& i < names@.len()
                &&& names@[i as int]@ == part@
                &&& forall|j: int| 0 <= j < i ==> (#[trigger] names@[j])@ != part@
                &&& cluster == spec_first_cluster(entries@[i as int]@)
            },
        },
{
    match find_name(names, part) {
        None => PathStep::NotHere,
        Some(i) => if is_last {
            PathStep::Found(i)
        } else {
            PathStep::Descend(i, entry_first_cluster(entries[i].as_slice()))
        },
    }
}

/// The name a listed file is looked up by: its long name when it has one,
/// else the 11 bytes of its short name.
pub fn entry_name(long_name: &Option<Vec<u8>>, short_entry: &[u8]) -> (r: Vec<u8>)
    requires
        short_entry@.len() == 32,
    ensures
        r@ == match long_name {
            Some(n) => n@,
            None => short_entry@.subrange(0, 11),
        },
{
    let (source, len): (&[u8], usize) = match long_name {
        Some(n) => (n.as_slice(), n.len()),
        None => (short_entry, 11),
    };
    let mut r: Vec<u8> = Vec::new();
    let mut i: usize = 0;
    while i < len
        invariant
            i <= len,
            len <= source@.len(),
            r@ == source@.subrange(0, i as int),
        decreases len - i,
    {
        r.push(source[i]);
        i = i + 1;
        proof {
            assert(r@ =~= source@.subrange(0, i as int));
        }
    }
    proof {
        if long_name is Some {
            assert(source@.subrange(0, len as int) =~= source@);
        }
    }
    r
}

/// What a short (8.3) entry of a listing means.
#[derive(Debug)]
pub enum ListingStep {
    /// The end of the listing: an entry whose name is all zeros.
    End,
    /// A free entry: skipped.
    Skip,
    /// A file: its long name when long-name entries came before it, and how
    /// many did.
    File { long_name: Option<Vec<u8>>, long_entries: usize },
}

/// The long name gathered from the long-name entries read so far. The
/// entries come last part first, so each part goes in front.
#[derive(Debug)]
pub struct LongNameAssembly {
    pub name: Vec<u8>,
    pub entries: usize,
    pub processing: bool,
}

/// Every byte of `s` is zero.
pub open spec fn all_zero(s: Seq<u8>) -> bool {
    forall|i: int| 0 <= i < s.len() ==> s[i] == 0
}

impl LongNameAssembly {
    /// No long name gathered.
    pub fn new() -> (r: Self)
        ensures
            r.name@ == Seq::<u8>::empty(),
            r.entries == 0,
            !r.processing,
    {
        LongNameAssembly { name: Vec::new(), entries: 0, processing: false }
    }

    /// A long-name entry with text `part`: it goes in front of the name.
    pub fn long_entry(&mut self, part: Vec<u8>)
        requires
            old(self).entries < usize::MAX,
        ensures
            final(self).name@ == part@ + old(self).name@,
            final(self).entries == old(self).entries + 1,
            final(self).processing,
    {
        let mut name = part;
        let mut i: usize = 0;
        let ghost front = name@;
        while i < self.name.len()
            invariant
                i <= self.name@.len(),
                name@ == front + self.name@.subrange(0, i as int),
            decreases self.name@.len() - i,
        {
            name.push(self.name[i]);
            i = i + 1;
            proof {
                assert(self.name@.subrange(0, i as int) =~= self.name@.subrange(0, i - 1) + seq![self.name@[i - 1]]);
            }
        }
        proof {
            assert(self.name@.subrange(0, i as int) =~= self.name@);
        }
        self.name = name;
        self.entries = self.entries + 1;
        self.processing = true;
    }

    /// A short entry with the 11 bytes `name`: the end of the listing when
    /// they are all zero, a free entry when the first is the free mark,
    /// else a file, which takes the gathered long name, if any.
    pub fn short_entry(&mut self, name: &[u8]) -> (r: ListingStep)
        requires
            name@.len() == 11,
        ensures
            all_zero(name@) ==> r is End && *final(self) == *old(self),
            !all_zero(name@) && name@[0] == FAT_FREE_ENTRY ==> r is Skip && *final(self) == *old(self),
            !all_zero(name@) && name@[0] != FAT_FREE_ENTRY ==> {
                &&& r matches ListingStep::File { long_name, long_entries }
                &&& long_name == (if old(self).processing {
                    Some(old(self).name)
                } else {
                    None::<Vec<u8>>
                })
                &&& long_entries == (if old(self).processing {
                    old(self).entries
                } else {
                    0
                })
                &&& final(self).name@ == (if old(self).processing {
                    Seq::<u8>::empty()
                } else {
                    old(self).name@
                })
                &&& final(self).entries == (if old(self).processing {
                    0
                } else {
                    old(self).entries
                })
                &&& !final(self).processing
            },
    {
        let mut i: usize = 0;
        while i < 11 && name[i] == 0
            invariant
                i <= 11,
                name@.len() == 11,
                forall|k: int| 0 <= k < i ==> name@[k] == 0,
            decreases 11 - i,
        {
            i = i + 1;
        }
        if i == 11 {
            return ListingStep::End;
        }
        if name[0] == FAT_FREE_ENTRY {
            return ListingStep::Skip;
        }
        if self.processing {
            let mut long_name: Vec<u8> = Vec::new();
            core::mem::swap(&mut long_name, &mut self.name);
            let long_entries = self.entries;
            self.entries = 0;
            self.processing = false;
            ListingStep::File { long_name: Some(long_name), long_entries }
        } else {
            ListingStep::File { long_name: None, long_entries: 0 }
        }
    }
}

} // verus!
