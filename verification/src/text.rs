//! Byte-sequence helpers shared across the library, and the small text
//! transforms used on field content: sanitization for the record store,
//! markup stripping, character-reference decoding, and markup escaping.
use vstd::prelude::*;
use vstd::string::StringSliceAdditionalSpecFns;

verus! {

/// First index of `b` in `s` at or after `from`, or `s.len()` if absent.
pub open spec fn spec_find_byte(s: Seq<u8>, b: u8, from: int) -> int
    decreases s.len() - from,
{
    if from < 0 || from >= s.len() {
        s.len() as int
    } else if s[from] == b {
        from
    } else {
        spec_find_byte(s, b, from + 1)
    }
}

pub proof fn lemma_find_byte_range(s: Seq<u8>, b: u8, from: int)
    requires
        0 <= from <= s.len(),
    ensures
        from <= spec_find_byte(s, b, from) <= s.len(),
        spec_find_byte(s, b, from) < s.len() ==> s[spec_find_byte(s, b, from)] == b,
        forall|j: int| from <= j < spec_find_byte(s, b, from) ==> s[j] != b,
    decreases s.len() - from,
{
    if from < s.len() && s[from] != b {
        lemma_find_byte_range(s, b, from + 1);
    }
}

pub fn find_byte(s: &[u8], b: u8, from: usize) -> (r: usize)
    requires
        from <= s@.len(),
    ensures
        r == spec_find_byte(s@, b, from as int),
{
    let mut i: usize = from;
    while i < s.len()
        invariant
            from <= i <= s@.len(),
            spec_find_byte(s@, b, from as int) == spec_find_byte(s@, b, i as int),
        decreases s@.len() - i,
    {
        if s[i] == b {
            return i;
        }
        i += 1;
    }
    i
}

/// The first occurrence is exactly where a witness run of non-`b` bytes
/// ends: if nothing in `[from, k)` is `b`, and `k` is the end or holds
/// `b`, then the search from `from` answers `k`.
pub proof fn lemma_find_byte_is(s: Seq<u8>, b: u8, from: int, k: int)
    requires
        0 <= from <= k <= s.len(),
        forall|i: int| from <= i < k ==> s[i] != b,
        k < s.len() ==> s[k] == b,
    ensures
        spec_find_byte(s, b, from) == k,
    decreases k - from,
{
    if from < k {
        lemma_find_byte_is(s, b, from + 1, k);
    }
}

/// `p` occurs in `s` starting exactly at index `at`.
pub open spec fn spec_starts_with_at(s: Seq<u8>, p: Seq<u8>, at: int) -> bool {
    &&& 0 <= at
    &&& at + p.len() <= s.len()
    &&& s.subrange(at, at + p.len() as int) == p
}

pub fn starts_with_at(s: &[u8], p: &[u8], at: usize) -> (r: bool)
    requires
        at <= s@.len(),
    ensures
        r == spec_starts_with_at(s@, p@, at as int),
{
    if s.len() - at < p.len() {
        return false;
    }
    bytes_eq(&s[at..at + p.len()], p)
}

/// Copy a byte slice into an owned vector.
pub fn slice_to_vec_u8(s: &[u8]) -> (r: Vec<u8>)
    ensures
        r@ == s@,
{
    let mut r: Vec<u8> = Vec::new();
    let mut i: usize = 0;
    while i < s.len()
        invariant
            i <= s@.len(),
            r@ == s@.take(i as int),
        decreases s@.len() - i,
    {
        r.push(s[i]);
        i += 1;
        proof {
            assert(r@ =~= s@.take(i as int));
        }
    }
    proof {
        assert(s@.take(s@.len() as int) =~= s@);
    }
    r
}

/// First index of an occurrence of `p` in `s` at or after `from`, or
/// `s.len()` if none.
pub open spec fn spec_find_sub(s: Seq<u8>, p: Seq<u8>, from: int) -> int
    decreases s.len() - from,
{
    if from < 0 || from >= s.len() {
        s.len() as int
    } else if spec_starts_with_at(s, p, from) {
        from
    } else {
        spec_find_sub(s, p, from + 1)
    }
}

pub proof fn lemma_find_sub_range(s: Seq<u8>, p: Seq<u8>, from: int)
    requires
        0 <= from <= s.len(),
    ensures
        from <= spec_find_sub(s, p, from) <= s.len(),
        spec_find_sub(s, p, from) < s.len() ==> spec_starts_with_at(s, p, spec_find_sub(s, p, from)),
    decreases s.len() - from,
{
    if from < s.len() && !spec_starts_with_at(s, p, from) {
        lemma_find_sub_range(s, p, from + 1);
    }
}

pub fn find_sub(s: &[u8], p: &[u8], from: usize) -> (r: usize)
    requires
        from <= s@.len(),
    ensures
        r == spec_find_sub(s@, p@, from as int),
{
    let mut i: usize = from;
    while i < s.len()
        invariant
            from <= i <= s@.len(),
            spec_find_sub(s@, p@, from as int) == spec_find_sub(s@, p@, i as int),
        decreases s@.len() - i,
    {
        if starts_with_at(s, p, i) {
            return i;
        }
        i += 1;
    }
    i
}

pub fn bytes_eq(a: &[u8], b: &[u8]) -> (r: bool)
    ensures
        r == (a@ == b@),
{
    if a.len() != b.len() {
        return false;
    }
    let mut i: usize = 0;
    while i < a.len()
        invariant
            0 <= i <= a@.len(),
            a@.len() == b@.len(),
            forall|j: int| 0 <= j < i ==> a@[j] == b@[j],
        decreases a@.len() - i,
    {
        if a[i] != b[i] {
            return false;
        }
        i += 1;
    }
    proof {
        assert(a@ =~= b@);
    }
    true
}

/// A field byte with the record delimiter (tab) and line break replaced.
pub open spec fn spec_sanitize_byte(b: u8) -> u8 {
    if b == 9 || b == 10 {
        32
    } else {
        b
    }
}

/// Sanitized form of a whole field: every delimiter or line-break byte
/// becomes a single space, so record framing is never broken by content.
pub open spec fn spec_sanitize(s: Seq<u8>) -> Seq<u8> {
    s.map_values(|b: u8| spec_sanitize_byte(b))
}

/// Replace every tab or newline in a field by a space.
pub fn sanitize_field(s: &[u8]) -> (r: Vec<u8>)
    ensures
        r@ == spec_sanitize(s@),
{
    let mut r: Vec<u8> = Vec::new();
    let mut i: usize = 0;
    while i < s.len()
        invariant
            i <= s@.len(),
            r@ == spec_sanitize(s@.take(i as int)),
        decreases s@.len() - i,
    {
        let b = s[i];
        if b == 9 || b == 10 {
            r.push(32);
        } else {
            r.push(b);
        }
        i += 1;
        proof {
            assert(r@ =~= spec_sanitize(s@.take(i as int)));
        }
    }
    proof {
        assert(s@.take(s@.len() as int) =~= s@);
    }
    r
}

pub proof fn lemma_starts_with_skip(s: Seq<u8>, p: Seq<u8>, i: int)
    requires
        0 <= i <= s.len(),
    ensures
        spec_starts_with_at(s, p, i) == spec_starts_with_at(s.skip(i), p, 0),
{
    if i + p.len() <= s.len() {
        assert(s.skip(i).subrange(0, p.len() as int) =~= s.subrange(i, i + p.len() as int));
    }
}

/// The named character references this library decodes, with their
/// replacements: ampersand, angle brackets, double quote, two apostrophe
/// spellings and a numeric one, and the non-breaking space.
pub open spec fn spec_entity_amp() -> Seq<u8> {
    seq![38u8, 97u8, 109u8, 112u8, 59u8]
}

pub open spec fn spec_entity_lt() -> Seq<u8> {
    seq![38u8, 108u8, 116u8, 59u8]
}

pub open spec fn spec_entity_gt() -> Seq<u8> {
    seq![38u8, 103u8, 116u8, 59u8]
}

pub open spec fn spec_entity_quot() -> Seq<u8> {
    seq![38u8, 113u8, 117u8, 111u8, 116u8, 59u8]
}

pub open spec fn spec_entity_num39() -> Seq<u8> {
    seq![38u8, 35u8, 51u8, 57u8, 59u8]
}

pub open spec fn spec_entity_apos() -> Seq<u8> {
    seq![38u8, 97u8, 112u8, 111u8, 115u8, 59u8]
}

pub open spec fn spec_entity_hex27() -> Seq<u8> {
    seq![38u8, 35u8, 120u8, 50u8, 55u8, 59u8]
}

pub open spec fn spec_entity_nbsp() -> Seq<u8> {
    seq![38u8, 110u8, 98u8, 115u8, 112u8, 59u8]
}

/// One decoding step at the head of `s`: the replacement byte and the
/// number of input bytes consumed, for the first matching reference.
pub open spec fn spec_entity_step(s: Seq<u8>) -> Option<(u8, int)> {
    if spec_starts_with_at(s, spec_entity_amp(), 0) {
        Some((38u8, 5))
    } else if spec_starts_with_at(s, spec_entity_lt(), 0) {
        Some((60u8, 4))
    } else if spec_starts_with_at(s, spec_entity_gt(), 0) {
        Some((62u8, 4))
    } else if spec_starts_with_at(s, spec_entity_quot(), 0) {
        Some((34u8, 6))
    } else if spec_starts_with_at(s, spec_entity_num39(), 0) {
        Some((39u8, 5))
    } else if spec_starts_with_at(s, spec_entity_apos(), 0) {
        Some((39u8, 6))
    } else if spec_starts_with_at(s, spec_entity_hex27(), 0) {
        Some((39u8, 6))
    } else if spec_starts_with_at(s, spec_entity_nbsp(), 0) {
        Some((32u8, 6))
    } else {
        None
    }
}

/// Text with the fixed set of named character references decoded, in one
/// left-to-right pass.
pub open spec fn spec_decode_entities(s: Seq<u8>) -> Seq<u8>
    decreases s.len(),
{
    if s.len() == 0 {
        seq![]
    } else {
        match spec_entity_step(s) {
            Some((rep, used)) => seq![rep] + spec_decode_entities(s.skip(used)),
            None => seq![s[0]] + spec_decode_entities(s.skip(1)),
        }
    }
}

/// Decode the fixed set of named character references.
pub fn decode_entities(s: &[u8]) -> (r: Vec<u8>)
    ensures
        r@ == spec_decode_entities(s@),
{
    let ent_amp: [u8; 5] = [38, 97, 109, 112, 59];
    let ent_lt: [u8; 4] = [38, 108, 116, 59];
    let ent_gt: [u8; 4] = [38, 103, 116, 59];
    let ent_quot: [u8; 6] = [38, 113, 117, 111, 116, 59];
    let ent_num39: [u8; 5] = [38, 35, 51, 57, 59];
    let ent_apos: [u8; 6] = [38, 97, 112, 111, 115, 59];
    let ent_hex27: [u8; 6] = [38, 35, 120, 50, 55, 59];
    let ent_nbsp: [u8; 6] = [38, 110, 98, 115, 112, 59];
    let mut r: Vec<u8> = Vec::new();
    let mut i: usize = 0;
    proof {
        assert(s@.skip(0) =~= s@);
        assert(r@ + spec_decode_entities(s@) =~= spec_decode_entities(s@));
    }
    while i < s.len()
        invariant
            i <= s@.len(),
            r@ + spec_decode_entities(s@.skip(i as int)) == spec_decode_entities(s@),
            ent_amp@ == spec_entity_amp(),
            ent_lt@ == spec_entity_lt(),
            ent_gt@ == spec_entity_gt(),
            ent_quot@ == spec_entity_quot(),
            ent_num39@ == spec_entity_num39(),
            ent_apos@ == spec_entity_apos(),
            ent_hex27@ == spec_entity_hex27(),
            ent_nbsp@ == spec_entity_nbsp(),
        decreases s@.len() - i,
    {
        proof {
            lemma_starts_with_skip(s@, spec_entity_amp(), i as int);
            lemma_starts_with_skip(s@, spec_entity_lt(), i as int);
            lemma_starts_with_skip(s@, spec_entity_gt(), i as int);
            lemma_starts_with_skip(s@, spec_entity_quot(), i as int);
            lemma_starts_with_skip(s@, spec_entity_num39(), i as int);
            lemma_starts_with_skip(s@, spec_entity_apos(), i as int);
            lemma_starts_with_skip(s@, spec_entity_hex27(), i as int);
            lemma_starts_with_skip(s@, spec_entity_nbsp(), i as int);
        }
        let used: usize;
        if starts_with_at(s, ent_amp.as_slice(), i) {
            r.push(38);
            used = 5;
        } else if starts_with_at(s, ent_lt.as_slice(), i) {
            r.push(60);
            used = 4;
        } else if starts_with_at(s, ent_gt.as_slice(), i) {
            r.push(62);
            used = 4;
        } else if starts_with_at(s, ent_quot.as_slice(), i) {
            r.push(34);
            used = 6;
        } else if starts_with_at(s, ent_num39.as_slice(), i) {
            r.push(39);
            used = 5;
        } else if starts_with_at(s, ent_apos.as_slice(), i) {
            r.push(39);
            used = 6;
        } else if starts_with_at(s, ent_hex27.as_slice(), i) {
            r.push(39);
            used = 6;
        } else if starts_with_at(s, ent_nbsp.as_slice(), i) {
            r.push(32);
            used = 6;
        } else {
            r.push(s[i]);
            used = 1;
            proof {
                assert(s@.skip(i as int)[0] == s@[i as int]);
            }
        }
        i += used;
        proof {
            assert(s@.skip(i as int - used as int).skip(used as int) =~= s@.skip(i as int));
            assert(r@ + spec_decode_entities(s@.skip(i as int)) =~= spec_decode_entities(s@));
        }
    }
    proof {
        assert(s@.skip(s@.len() as int) =~= Seq::<u8>::empty());
        assert(r@ + spec_decode_entities(s@.skip(s@.len() as int)) =~= r@);
    }
    r
}

/// Text with everything between an unmatched `<` and the next `>`
/// discarded; `tag` says whether the scan starts inside a tag.
pub open spec fn spec_strip_tags(s: Seq<u8>, tag: bool) -> Seq<u8>
    decreases s.len(),
{
    if s.len() == 0 {
        seq![]
    } else if s[0] == 60 {
        spec_strip_tags(s.skip(1), true)
    } else if s[0] == 62 {
        spec_strip_tags(s.skip(1), false)
    } else if tag {
        spec_strip_tags(s.skip(1), tag)
    } else {
        seq![s[0]] + spec_strip_tags(s.skip(1), tag)
    }
}

/// Markup-stripped, reference-decoded plain text of a fragment.
pub open spec fn spec_strip_html(s: Seq<u8>) -> Seq<u8> {
    spec_decode_entities(spec_strip_tags(s, false))
}

/// Strip markup with an angle-bracket state machine, then decode the
/// fixed set of character references.
pub fn strip_html(s: &[u8]) -> (r: Vec<u8>)
    ensures
        r@ == spec_strip_html(s@),
{
    let mut stripped: Vec<u8> = Vec::new();
    let mut in_tag: bool = false;
    let mut i: usize = 0;
    proof {
        assert(s@.skip(0) =~= s@);
        assert(stripped@ + spec_strip_tags(s@, false) =~= spec_strip_tags(s@, false));
    }
    while i < s.len()
        invariant
            i <= s@.len(),
            stripped@ + spec_strip_tags(s@.skip(i as int), in_tag) == spec_strip_tags(s@, false),
        decreases s@.len() - i,
    {
        let b = s[i];
        proof {
            assert(s@.skip(i as int)[0] == b);
            assert(s@.skip(i as int).skip(1) =~= s@.skip(i as int + 1));
        }
        if b == 60 {
            in_tag = true;
        } else if b == 62 {
            in_tag = false;
        } else if !in_tag {
            stripped.push(b);
        }
        i += 1;
        proof {
            assert(stripped@ + spec_strip_tags(s@.skip(i as int), in_tag) =~= spec_strip_tags(
                s@,
                false,
            ));
        }
    }
    proof {
        assert(s@.skip(s@.len() as int) =~= Seq::<u8>::empty());
        assert(stripped@ + spec_strip_tags(s@.skip(s@.len() as int), in_tag) =~= stripped@);
    }
    decode_entities(stripped.as_slice())
}

/// What one byte becomes under markup escaping.
pub open spec fn spec_escape_byte(b: u8) -> Seq<u8> {
    if b == 38 {
        "&amp;".spec_bytes()
    } else if b == 60 {
        "&lt;".spec_bytes()
    } else if b == 62 {
        "&gt;".spec_bytes()
    } else if b == 34 {
        "&quot;".spec_bytes()
    } else {
        seq![b]
    }
}

/// Markup-escaped form of a text: ampersand, angle brackets and double
/// quote become character references; everything else is unchanged.
pub open spec fn spec_escape(s: Seq<u8>) -> Seq<u8>
    decreases s.len(),
{
    if s.len() == 0 {
        seq![]
    } else {
        spec_escape_byte(s[0]) + spec_escape(s.skip(1))
    }
}

/// Escape text for embedding in a markup document.
pub fn escape_html(s: &[u8]) -> (r: Vec<u8>)
    ensures
        r@ == spec_escape(s@),
{
    let mut r: Vec<u8> = Vec::new();
    let mut i: usize = 0;
    proof {
        assert(s@.skip(0) =~= s@);
        assert(r@ + spec_escape(s@) =~= spec_escape(s@));
    }
    while i < s.len()
        invariant
            i <= s@.len(),
            r@ + spec_escape(s@.skip(i as int)) == spec_escape(s@),
        decreases s@.len() - i,
    {
        let b = s[i];
        proof {
            assert(s@.skip(i as int)[0] == b);
            assert(s@.skip(i as int).skip(1) =~= s@.skip(i as int + 1));
        }
        if b == 38 {
            r.extend_from_slice("&amp;".as_bytes());
        } else if b == 60 {
            r.extend_from_slice("&lt;".as_bytes());
        } else if b == 62 {
            r.extend_from_slice("&gt;".as_bytes());
        } else if b == 34 {
            r.extend_from_slice("&quot;".as_bytes());
        } else {
            r.push(b);
        }
        i += 1;
        proof {
            assert(r@ + spec_escape(s@.skip(i as int)) =~= spec_escape(s@));
        }
    }
    proof {
        assert(s@.skip(s@.len() as int) =~= Seq::<u8>::empty());
        assert(r@ + spec_escape(s@.skip(s@.len() as int)) =~= r@);
    }
    r
}

} // verus!
