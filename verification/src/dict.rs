//! Value dictionary: a single global interning table mapping short
//! fixed-length identifiers to string values. Identifiers are five symbols
//! drawn from the 62-symbol alphabet of ASCII letters and digits, generated
//! by rejection sampling (with a deterministic sweep of the identifier space
//! as the backstop), and unique within the dictionary.
use vstd::prelude::*;

verus! {

/// One interned value: a short identifier mapped to the string it stands for.
pub struct DictEntry {
    pub id: String,
    pub value: String,
}

/// One symbol of the identifier alphabet: an ASCII letter or digit.
pub open spec fn is_id_char(c: char) -> bool {
    (65 <= c as u32 && c as u32 <= 90) || (97 <= c as u32 && c as u32 <= 122) || (48 <= c as u32
        && c as u32 <= 57)
}

/// A well-formed identifier: exactly five symbols of the alphabet.
pub open spec fn wf_id(s: Seq<char>) -> bool {
    &&& s.len() == 5
    &&& forall|i: int| 0 <= i < s.len() ==> is_id_char(s[i])
}

/// The identifier of the first entry, at or after position `i`, whose value
/// is `v`.
pub open spec fn find_id_from(s: Seq<DictEntry>, v: Seq<char>, i: int) -> Option<Seq<char>>
    decreases s.len() - i,
{
    if i < 0 || i >= s.len() {
        None
    } else if s[i].value@ == v {
        Some(s[i].id@)
    } else {
        find_id_from(s, v, i + 1)
    }
}

/// The identifier the dictionary scan resolves a value to: the first entry
/// holding that value, if any.
pub open spec fn find_id(s: Seq<DictEntry>, v: Seq<char>) -> Option<Seq<char>> {
    find_id_from(s, v, 0)
}

/// The value of the first entry, at or after position `i`, whose identifier
/// is `id`.
pub open spec fn get_value_from(s: Seq<DictEntry>, id: Seq<char>, i: int) -> Option<Seq<char>>
    decreases s.len() - i,
{
    if i < 0 || i >= s.len() {
        None
    } else if s[i].id@ == id {
        Some(s[i].value@)
    } else {
        get_value_from(s, id, i + 1)
    }
}

/// The value an identifier resolves to, if the identifier is known.
pub open spec fn get_value(s: Seq<DictEntry>, id: Seq<char>) -> Option<Seq<char>> {
    get_value_from(s, id, 0)
}

/// Whether some entry carries the identifier `id`.
pub open spec fn has_id(s: Seq<DictEntry>, id: Seq<char>) -> bool {
    exists|i: int| 0 <= i < s.len() && s[i].id@ == id
}

/// Dictionary well-formedness: identifiers are pairwise distinct and each is
/// five symbols of the alphabet.
pub open spec fn dict_wf(s: Seq<DictEntry>) -> bool {
    &&& forall|i: int, j: int| 0 <= i < j < s.len() ==> s[i].id@ != s[j].id@
    &&& forall|i: int| 0 <= i < s.len() ==> wf_id(s[i].id@)
}

/// Relies on rand::Rng::gen_range: sampling the range `0..n` returns a value
/// of that range.
#[verifier::external_body]
fn rand_below(n: usize) -> (r: usize)
    requires
        n > 0,
    ensures
        r < n,
{
    rand::Rng::gen_range(&mut rand::thread_rng(), 0..n)
}

/// Relies on String::from_utf8: ASCII bytes are valid UTF-8 and decode to
/// one character per byte, each with the same code point.
#[verifier::external_body]
fn ascii_string(bytes: Vec<u8>) -> (r: String)
    requires
        forall|i: int| 0 <= i < bytes@.len() ==> bytes@[i] < 128,
    ensures
        r@.len() == bytes@.len(),
        forall|i: int| 0 <= i < r@.len() ==> r@[i] == bytes@[i] as char,
{
    match String::from_utf8(bytes) {
        Ok(s) => s,
        Err(_) => String::new(),
    }
}

/// The symbol of one base-62 digit: the upper-case letters, then the
/// lower-case letters, then the decimal digits.
pub open spec fn id_digit(d: int) -> char {
    if d < 26 {
        ((65 + d) as u8) as char
    } else if d < 52 {
        ((97 + d - 26) as u8) as char
    } else {
        ((48 + d - 52) as u8) as char
    }
}

/// The digit a symbol stands for: the inverse of `id_digit` on the alphabet.
pub open spec fn digit_val(c: char) -> int {
    if 65 <= c as u32 && c as u32 <= 90 {
        c as u32 - 65
    } else if 97 <= c as u32 && c as u32 <= 122 {
        c as u32 - 97 + 26
    } else {
        c as u32 - 48 + 52
    }
}

/// Each digit's symbol is of the alphabet and reads back as the digit.
pub proof fn lemma_id_digit(d: int)
    requires
        0 <= d < 62,
    ensures
        is_id_char(id_digit(d)),
        digit_val(id_digit(d)) == d,
{
}

/// The `i`-th symbol of the 62-symbol alphabet as an ASCII byte: the
/// upper-case letters, then the lower-case letters, then the digits.
fn alphabet_byte(i: usize) -> (b: u8)
    requires
        i < 62,
    ensures
        b < 128,
        is_id_char(b as char),
        b as char == id_digit(i as int),
{
    if i < 26 {
        65 + (i as u8)
    } else if i < 52 {
        97 + (i as u8 - 26)
    } else {
        48 + (i as u8 - 52)
    }
}

/// The number of five-symbol identifiers over the 62-symbol alphabet.
pub const ID_SPACE: usize = 62 * 62 * 62 * 62 * 62;

/// The five-symbol identifier that writes `k` in base 62, most significant
/// digit first.
pub open spec fn spec_encode_id(k: int) -> Seq<char> {
    let q1 = k / 62;
    let q2 = q1 / 62;
    let q3 = q2 / 62;
    let q4 = q3 / 62;
    seq![
        id_digit(q4 % 62),
        id_digit(q3 % 62),
        id_digit(q2 % 62),
        id_digit(q1 % 62),
        id_digit(k % 62),
    ]
}

/// The number a five-symbol identifier writes in base 62.
pub open spec fn spec_decode_id(s: Seq<char>) -> int {
    (((digit_val(s[0]) * 62 + digit_val(s[1])) * 62 + digit_val(s[2])) * 62 + digit_val(s[3]))
        * 62 + digit_val(s[4])
}

/// Encoding a number below the identifier-space size gives a well-formed
/// identifier whose digits read back as the number, so distinct numbers get
/// distinct identifiers.
pub proof fn lemma_encode_id_decodes(k: int)
    requires
        0 <= k < ID_SPACE,
    ensures
        wf_id(spec_encode_id(k)),
        spec_decode_id(spec_encode_id(k)) == k,
{
    let q1 = k / 62;
    let q2 = q1 / 62;
    let q3 = q2 / 62;
    let q4 = q3 / 62;
    vstd::arithmetic::div_mod::lemma_fundamental_div_mod(k, 62);
    vstd::arithmetic::div_mod::lemma_fundamental_div_mod(q1, 62);
    vstd::arithmetic::div_mod::lemma_fundamental_div_mod(q2, 62);
    vstd::arithmetic::div_mod::lemma_fundamental_div_mod(q3, 62);
    lemma_id_digit(q4 % 62);
    lemma_id_digit(q3 % 62);
    lemma_id_digit(q2 % 62);
    lemma_id_digit(q1 % 62);
    lemma_id_digit(k % 62);
    assert(q4 % 62 == q4);
    assert forall|i: int| 0 <= i < spec_encode_id(k).len() implies is_id_char(
        spec_encode_id(k)[i],
    ) by {
    }
}

/// The `k`-th five-symbol identifier: `k` written in base 62.
fn encode_id(k: usize) -> (r: String)
    requires
        k < ID_SPACE,
    ensures
        r@ == spec_encode_id(k as int),
{
    let q1 = k / 62;
    let q2 = q1 / 62;
    let q3 = q2 / 62;
    let q4 = q3 / 62;
    let mut b: Vec<u8> = Vec::new();
    b.push(alphabet_byte(q4 % 62));
    b.push(alphabet_byte(q3 % 62));
    b.push(alphabet_byte(q2 % 62));
    b.push(alphabet_byte(q1 % 62));
    b.push(alphabet_byte(k % 62));
    let r = ascii_string(b);
    proof {
        assert(r@ =~= spec_encode_id(k as int));
    }
    r
}

/// A dictionary carrying the identifiers of the numbers 0 to `n - 1` holds
/// at least `n` entries: the identifiers are pairwise distinct.
proof fn lemma_id_count(s: Seq<DictEntry>, n: int)
    requires
        0 <= n <= ID_SPACE,
        forall|j: int| 0 <= j < n ==> has_id(s, spec_encode_id(j)),
    ensures
        s.len() >= n,
    decreases n,
{
    if n > 0 {
        assert(has_id(s, spec_encode_id(n - 1)));
        let i = choose|i: int| 0 <= i < s.len() && s[i].id@ == spec_encode_id(n - 1);
        let s2 = s.remove(i);
        assert forall|j: int| 0 <= j < n - 1 implies has_id(s2, spec_encode_id(j)) by {
            assert(has_id(s, spec_encode_id(j)));
            let w = choose|w: int| 0 <= w < s.len() && s[w].id@ == spec_encode_id(j);
            assert(spec_encode_id(j) != spec_encode_id(n - 1)) by {
                lemma_encode_id_decodes(j);
                lemma_encode_id_decodes(n - 1);
            }
            if w < i {
                assert(s2[w].id@ == spec_encode_id(j));
            } else {
                assert(s2[w - 1].id@ == spec_encode_id(j));
            }
        }
        lemma_id_count(s2, n - 1);
    }
}

/// The global value dictionary, shared across all tables and columns.
pub struct Dictionary {
    pub entries: Vec<DictEntry>,
}

impl Dictionary {
    /// The dictionary invariant.
    pub open spec fn wf(&self) -> bool {
        dict_wf(self.entries@)
    }

    /// An empty dictionary.
    pub fn empty() -> (r: Dictionary)
        ensures
            r.wf(),
            r.entries@.len() == 0,
    {
        Dictionary { entries: Vec::new() }
    }

    /// Whether an identifier is already taken.
    pub fn contains_id(&self, id: &String) -> (r: bool)
        ensures
            r == has_id(self.entries@, id@),
    {
        let mut j: usize = 0;
        while j < self.entries.len()
            invariant
                j <= self.entries@.len(),
                forall|k: int| 0 <= k < j ==> self.entries@[k].id@ != id@,
            decreases self.entries@.len() - j,
        {
            if self.entries[j].id == *id {
                return true;
            }
            j = j + 1;
        }
        false
    }

    /// Direct lookup of an identifier, absent if the identifier is unknown.
    pub fn get(&self, id: &String) -> (r: Option<String>)
        ensures
            match r {
                Some(v) => get_value(self.entries@, id@) == Some(v@),
                None => get_value(self.entries@, id@) is None,
            },
    {
        let mut j: usize = 0;
        while j < self.entries.len()
            invariant
                j <= self.entries@.len(),
                get_value(self.entries@, id@) == get_value_from(self.entries@, id@, j as int),
            decreases self.entries@.len() - j,
        {
            if self.entries[j].id == *id {
                return Some(self.entries[j].value.clone());
            }
            j = j + 1;
        }
        None
    }

    /// Draw random five-symbol identifiers until one is not already a key.
    /// The draws stop once a full sweep of them (one more than there are
    /// entries) has collided; a deterministic sweep of the identifier space
    /// then takes over, so a fresh identifier is owed whenever one exists —
    /// that is, whenever the dictionary holds fewer than all five-symbol
    /// identifiers.
    pub fn generate_id(&self) -> (r: Option<String>)
        ensures
            r matches Some(id) ==> wf_id(id@) && !has_id(self.entries@, id@),
            self.entries@.len() < ID_SPACE ==> r is Some,
    {
        let n = self.entries.len();
        let mut t: usize = 0;
        loop
            invariant
                t <= n,
            decreases n - t,
        {
            let mut b: Vec<u8> = Vec::new();
            let mut k: usize = 0;
            while k < 5
                invariant
                    b@.len() == k,
                    k <= 5,
                    forall|i: int| 0 <= i < b@.len() ==> b@[i] < 128 && is_id_char(b@[i] as char),
                decreases 5 - k,
            {
                b.push(alphabet_byte(rand_below(62)));
                k = k + 1;
            }
            let id = ascii_string(b);
            proof {
                assert forall|i: int| 0 <= i < id@.len() implies is_id_char(id@[i]) by {
                    assert(is_id_char(b@[i] as char));
                }
            }
            if !self.contains_id(&id) {
                return Some(id);
            }
            if t == n {
                break;
            }
            t = t + 1;
        }
        if n >= ID_SPACE {
            return None;
        }
        let mut k: usize = 0;
        while k < n
            invariant
                n == self.entries@.len(),
                n < ID_SPACE,
                k <= n,
                forall|j: int| 0 <= j < k ==> has_id(self.entries@, spec_encode_id(j)),
            decreases n - k,
        {
            let id = encode_id(k);
            if !self.contains_id(&id) {
                proof {
                    lemma_encode_id_decodes(k as int);
                }
                return Some(id);
            }
            k = k + 1;
        }
        let id = encode_id(n);
        if !self.contains_id(&id) {
            proof {
                lemma_encode_id_decodes(n as int);
            }
            return Some(id);
        }
        proof {
            assert(forall|j: int| 0 <= j < n + 1 ==> has_id(self.entries@, spec_encode_id(j)));
            lemma_id_count(self.entries@, n as int + 1);
            assert(false);
        }
        None
    }

    /// Scan for an entry holding exactly `value`; if found return its
    /// identifier, otherwise generate a fresh identifier, insert the new
    /// entry, and return it. A value already interned is always found, and a
    /// fresh identifier is owed while the identifier space is not exhausted.
    pub fn lookup_or_insert(&mut self, value: &String) -> (r: Option<String>)
        requires
            old(self).wf(),
        ensures
            final(self).wf(),
            old(self).entries@.len() < ID_SPACE ==> r is Some,
            r matches Some(x) ==> wf_id(x@) && get_value(final(self).entries@, x@) == Some(value@)
                && find_id(final(self).entries@, value@) == Some(x@),
            match find_id(old(self).entries@, value@) {
                Some(id) => final(self).entries@ == old(self).entries@ && (r matches Some(x)
                    && x@ == id),
                None => match r {
                    Some(x) => {
                        &&& final(self).entries@.len() == old(self).entries@.len() + 1
                        &&& final(self).entries@.drop_last() =~= old(self).entries@
                        &&& final(self).entries@.last().id@ == x@
                        &&& final(self).entries@.last().value@ == value@
                        &&& !has_id(old(self).entries@, x@)
                    },
                    None => final(self).entries@ == old(self).entries@,
                },
            },
    {
        let n = self.entries.len();
        let mut j: usize = 0;
        while j < n
            invariant
                self.entries@ == old(self).entries@,
                old(self).wf(),
                n == self.entries@.len(),
                j <= n,
                find_id(self.entries@, value@) == find_id_from(self.entries@, value@, j as int),
            decreases n - j,
        {
            if self.entries[j].value == *value {
                let id = self.entries[j].id.clone();
                proof {
                    lemma_get_value_at(self.entries@, j as int);
                }
                return Some(id);
            }
            j = j + 1;
        }
        let id = match self.generate_id() {
            Some(id) => id,
            None => {
                return None;
            },
        };
        let entry = DictEntry { id: id.clone(), value: value.clone() };
        self.entries.push(entry);
        proof {
            let s = old(self).entries@;
            let e = final(self).entries@.last();
            assert(final(self).entries@ =~= s.push(e));
            assert(final(self).entries@.drop_last() =~= s);
            assert forall|i: int, k: int|
                0 <= i < k < final(self).entries@.len() implies final(self).entries@[i].id@
                != final(self).entries@[k].id@ by {
                if k == s.len() {
                    assert(has_id(s, final(self).entries@[i].id@));
                }
            }
            lemma_intern_idempotent(s, e);
            lemma_get_value_at(final(self).entries@, s.len() as int);
        }
        Some(id)
    }
}

/// Whether a string is a well-formed identifier: five symbols, each of the
/// alphabet.
pub fn is_valid_id(s: &String) -> (r: bool)
    ensures
        r == wf_id(s@),
{
    let st = s.as_str();
    let n = st.unicode_len();
    if n != 5 {
        return false;
    }
    let mut i: usize = 0;
    while i < 5
        invariant
            s@.len() == 5,
            st@ == s@,
            i <= 5,
            forall|m: int| 0 <= m < i ==> is_id_char(s@[m]),
        decreases 5 - i,
    {
        let u = st.get_char(i) as u32;
        if !((65 <= u && u <= 90) || (97 <= u && u <= 122) || (48 <= u && u <= 57)) {
            return false;
        }
        i = i + 1;
    }
    true
}

/// Appending an entry adds exactly its identifier to the set of known
/// identifiers.
pub proof fn lemma_has_id_push(s: Seq<DictEntry>, e: DictEntry, id: Seq<char>)
    ensures
        has_id(s.push(e), id) == (has_id(s, id) || e.id@ == id),
{
    if has_id(s, id) {
        let i = choose|i: int| 0 <= i < s.len() && s[i].id@ == id;
        assert(s.push(e)[i].id@ == id);
    }
    if e.id@ == id {
        assert(s.push(e)[s.len() as int].id@ == id);
    }
    if has_id(s.push(e), id) {
        let i = choose|i: int| 0 <= i < s.push(e).len() && s.push(e)[i].id@ == id;
        if i < s.len() {
            assert(s[i].id@ == id);
        }
    }
}

/// In a well-formed dictionary, an identifier held by the entry at position
/// `i` resolves to that entry's value.
pub proof fn lemma_get_value_at(s: Seq<DictEntry>, i: int)
    requires
        dict_wf(s),
        0 <= i < s.len(),
    ensures
        get_value(s, s[i].id@) == Some(s[i].value@),
{
    lemma_get_value_at_from(s, i, 0);
}

proof fn lemma_get_value_at_from(s: Seq<DictEntry>, i: int, j: int)
    requires
        dict_wf(s),
        0 <= j <= i < s.len(),
    ensures
        get_value_from(s, s[i].id@, j) == Some(s[i].value@),
    decreases i - j,
{
    if j < i {
        assert(s[j].id@ != s[i].id@);
        lemma_get_value_at_from(s, i, j + 1);
    }
}

/// Distinct values never intern to the same identifier: in a well-formed
/// dictionary, the identifier the scan finds for one value differs from the
/// identifier it finds for any other value.
pub proof fn lemma_distinct_values_distinct_ids(s: Seq<DictEntry>, v1: Seq<char>, v2: Seq<char>)
    requires
        dict_wf(s),
        v1 != v2,
        find_id(s, v1) is Some,
        find_id(s, v2) is Some,
    ensures
        find_id(s, v1) != find_id(s, v2),
{
    let i1 = lemma_find_id_witness(s, v1);
    let i2 = lemma_find_id_witness(s, v2);
    assert(i1 != i2);
    if i1 < i2 {
        assert(s[i1].id@ != s[i2].id@);
    } else {
        assert(s[i2].id@ != s[i1].id@);
    }
}

/// A found identifier is carried by an entry holding the value searched for.
pub proof fn lemma_find_id_witness(s: Seq<DictEntry>, v: Seq<char>) -> (i: int)
    requires
        find_id(s, v) is Some,
    ensures
        0 <= i < s.len(),
        s[i].value@ == v,
        find_id(s, v) == Some(s[i].id@),
{
    lemma_find_id_witness_from(s, v, 0)
}

proof fn lemma_find_id_witness_from(s: Seq<DictEntry>, v: Seq<char>, j: int) -> (i: int)
    requires
        0 <= j,
        find_id_from(s, v, j) is Some,
    ensures
        j <= i < s.len(),
        s[i].value@ == v,
        find_id_from(s, v, j) == Some(s[i].id@),
    decreases s.len() - j,
{
    if s[j].value@ == v {
        j
    } else {
        lemma_find_id_witness_from(s, v, j + 1)
    }
}

/// Codes handed out for distinct values stay distinct however many inserts
/// come between: a later dictionary state extends the earlier one, so the
/// code the earlier state resolved a value to is still that value's code,
/// and in the later state distinct values resolve to distinct codes.
pub proof fn lemma_codes_stay_distinct(
    d1: Seq<DictEntry>,
    d2: Seq<DictEntry>,
    v1: Seq<char>,
    v2: Seq<char>,
)
    requires
        dict_wf(d2),
        d1.is_prefix_of(d2),
        v1 != v2,
        find_id(d1, v1) is Some,
        find_id(d2, v2) is Some,
    ensures
        find_id(d1, v1) != find_id(d2, v2),
{
    lemma_find_id_stable_ext(d1, d2, v1);
    lemma_distinct_values_distinct_ids(d2, v1, v2);
}

/// Interning is idempotent: once a value's entry is in the dictionary (as it
/// is right after `lookup_or_insert` inserts it at the end), scanning for
/// that value again finds exactly that entry's identifier; and by the
/// contract of `lookup_or_insert`, a scan hit returns the found identifier
/// and leaves the dictionary unchanged.
pub proof fn lemma_intern_idempotent(s: Seq<DictEntry>, e: DictEntry)
    requires
        find_id(s, e.value@) is None,
    ensures
        find_id(s.push(e), e.value@) == Some(e.id@),
{
    lemma_find_id_push_from(s, e, 0);
}

proof fn lemma_find_id_push_from(s: Seq<DictEntry>, e: DictEntry, j: int)
    requires
        0 <= j <= s.len(),
        find_id_from(s, e.value@, j) is None,
    ensures
        find_id_from(s.push(e), e.value@, j) == Some(e.id@),
    decreases s.len() - j,
{
    if j < s.len() {
        lemma_find_id_push_from(s, e, j + 1);
    }
}

/// Appending a fresh entry does not disturb the identifier any other value
/// already resolves to.
pub proof fn lemma_find_id_stable(s: Seq<DictEntry>, e: DictEntry, v: Seq<char>)
    requires
        find_id(s, v) is Some,
    ensures
        find_id(s.push(e), v) == find_id(s, v),
{
    lemma_find_id_stable_from(s, e, v, 0);
}

proof fn lemma_find_id_stable_from(s: Seq<DictEntry>, e: DictEntry, v: Seq<char>, j: int)
    requires
        0 <= j,
        find_id_from(s, v, j) is Some,
    ensures
        find_id_from(s.push(e), v, j) == find_id_from(s, v, j),
    decreases s.len() - j,
{
    if j < s.len() && s[j].value@ != v {
        lemma_find_id_stable_from(s, e, v, j + 1);
    }
}

/// A prefix of a dictionary state stays a prefix when one more entry is
/// appended.
pub proof fn lemma_prefix_push(a: Seq<DictEntry>, b: Seq<DictEntry>, e: DictEntry)
    requires
        a.is_prefix_of(b),
    ensures
        a.is_prefix_of(b.push(e)),
{
    assert(b.push(e).subrange(0, a.len() as int) =~= b.subrange(0, a.len() as int));
}

/// A dictionary state that extends an earlier one by appended entries still
/// resolves every value the earlier state resolved, to the same identifier.
pub proof fn lemma_find_id_stable_ext(s1: Seq<DictEntry>, s2: Seq<DictEntry>, v: Seq<char>)
    requires
        s1.is_prefix_of(s2),
        find_id(s1, v) is Some,
    ensures
        find_id(s2, v) == find_id(s1, v),
    decreases s2.len(),
{
    if s1.len() == s2.len() {
        assert(s2.subrange(0, s1.len() as int) =~= s2);
        assert(s1 =~= s2);
    } else {
        let s2p = s2.drop_last();
        assert(s1.is_prefix_of(s2p)) by {
            assert(s2p.subrange(0, s1.len() as int) =~= s2.subrange(0, s1.len() as int));
        }
        lemma_find_id_stable_ext(s1, s2p, v);
        lemma_find_id_stable(s2p, s2.last(), v);
        assert(s2p.push(s2.last()) =~= s2);
    }
}

/// Appending an entry does not disturb the value any known identifier
/// already resolves to.
pub proof fn lemma_get_value_stable(s: Seq<DictEntry>, e: DictEntry, id: Seq<char>)
    requires
        get_value(s, id) is Some,
    ensures
        get_value(s.push(e), id) == get_value(s, id),
{
    lemma_get_value_stable_from(s, e, id, 0);
}

proof fn lemma_get_value_stable_from(s: Seq<DictEntry>, e: DictEntry, id: Seq<char>, j: int)
    requires
        0 <= j,
        get_value_from(s, id, j) is Some,
    ensures
        get_value_from(s.push(e), id, j) == get_value_from(s, id, j),
    decreases s.len() - j,
{
    if j < s.len() && s[j].id@ != id {
        lemma_get_value_stable_from(s, e, id, j + 1);
    }
}

} // verus!
