//! The cache line size that the layout is padded to.
//!
//! The host describes each of its caches by a few small text files. Reading
//! them is the caller's part; this module names the files, reads their
//! texts and picks the line size. Texts are byte strings.
use vstd::prelude::*;
use crate::unix::decimal;
use crate::unix::push_decimal;
use crate::header::append;

verus! {

/// The line size that is used where the host describes no data cache: the
/// natural alignment of a double-precision floating-point number.
pub const DEFAULT_CACHELINE_SIZE: usize = 8;

/// The header carries the line size in sixteen bits, so no larger power of
/// two can be told to the peer.
pub const MAX_CACHELINE_SIZE: usize = 0x8000;

/// Only caches of the first two levels count.
pub const MAX_CACHE_LEVEL: usize = 2;

/// What a cache holds.
#[derive(Debug, Clone, Copy, PartialEq, Eq, Structural)]
pub enum CacheType {
    Data,
    Instruction,
    Unified,
}

/// One cache of the host.
#[derive(Debug, Clone, Copy)]
pub struct Cache {
    pub level: usize,
    pub cls: usize,
    pub cache_type: CacheType,
}

/// A positive number with a single bit set.
pub open spec fn is_pow2(value: usize) -> bool {
    value > 0 && value & ((value - 1) as usize) == 0
}

/// Whether `value` is a power of two.
pub fn is_power_of_two(value: usize) -> (r: bool)
    ensures
        r == is_pow2(value),
{
    value > 0 && value & (value - 1) == 0
}

impl Cache {
    /// A data cache of the first two levels whose line size is a power of
    /// two that the header can carry.
    pub open spec fn counts(self) -> bool {
        &&& self.cache_type == CacheType::Data
        &&& self.level <= MAX_CACHE_LEVEL
        &&& is_pow2(self.cls)
        &&& self.cls <= MAX_CACHELINE_SIZE
    }
}

/// The largest line size among the first `upto` caches that count, and the
/// default where it is larger.
pub open spec fn largest_line(caches: Seq<Option<Cache>>, upto: int) -> usize
    decreases upto,
{
    if upto <= 0 {
        DEFAULT_CACHELINE_SIZE
    } else {
        let before = largest_line(caches, upto - 1);
        match caches[upto - 1] {
            Some(cache) => if cache.counts() && cache.cls > before {
                cache.cls
            } else {
                before
            },
            None => before,
        }
    }
}

/// The picked line size is a power of two between the default and the
/// largest that the header can carry, no cache that counts has a longer
/// line, and it is the default or the line size of a cache that counts.
pub proof fn lemma_largest_line(caches: Seq<Option<Cache>>, upto: int)
    requires
        0 <= upto <= caches.len(),
    ensures
        is_pow2(largest_line(caches, upto)),
        DEFAULT_CACHELINE_SIZE <= largest_line(caches, upto) <= MAX_CACHELINE_SIZE,
        forall|i: int|
            0 <= i < upto && caches[i].is_some() && (#[trigger] caches[i]).unwrap().counts()
                ==> caches[i].unwrap().cls <= largest_line(caches, upto),
        largest_line(caches, upto) == DEFAULT_CACHELINE_SIZE || exists|i: int|
            0 <= i < upto && caches[i].is_some() && (#[trigger] caches[i]).unwrap().counts()
                && caches[i].unwrap().cls == largest_line(caches, upto),
    decreases upto,
{
    assert(is_pow2(8usize)) by {
        assert(8usize & 7usize == 0) by (bit_vector);
    }
    if upto > 0 {
        lemma_largest_line(caches, upto - 1);
        let before = largest_line(caches, upto - 1);
        if before != DEFAULT_CACHELINE_SIZE && largest_line(caches, upto) == before {
            let i = choose|i: int|
                0 <= i < upto - 1 && caches[i].is_some() && (#[trigger] caches[i]).unwrap().counts()
                    && caches[i].unwrap().cls == before;
            assert(caches[i].unwrap().cls == largest_line(caches, upto));
        }
        if largest_line(caches, upto) != before {
            assert(caches[upto - 1].unwrap().cls == largest_line(caches, upto));
        }
    }
}

/// Picks the cache line size of the host from the descriptions of its
/// caches; `None` stands for a cache that could not be read.
pub fn max_cacheline_size(caches: &[Option<Cache>]) -> (r: usize)
    ensures
        r == largest_line(caches@, caches@.len() as int),
        is_pow2(r),
        DEFAULT_CACHELINE_SIZE <= r <= MAX_CACHELINE_SIZE,
{
    let mut cls: usize = DEFAULT_CACHELINE_SIZE;
    let mut index: usize = 0;
    while index < caches.len()
        invariant
            0 <= index <= caches@.len(),
            cls == largest_line(caches@, index as int),
        decreases caches@.len() - index,
    {
        match caches[index] {
            Some(cache) => {
                let counts = match cache.cache_type {
                    CacheType::Data => cache.level <= MAX_CACHE_LEVEL && is_power_of_two(cache.cls)
                        && cache.cls <= MAX_CACHELINE_SIZE,
                    _ => false,
                };
                if counts && cache.cls > cls {
                    cls = cache.cls;
                }
            },
            None => {},
        }
        index = index + 1;
    }
    proof {
        lemma_largest_line(caches@, caches@.len() as int);
    }
    cls
}

/// The text `/sys/devices/system/cpu/cpu`.
pub open spec fn cpu_dir() -> Seq<u8> {
    seq![
        0x2fu8, 0x73u8, 0x79u8, 0x73u8, 0x2fu8, 0x64u8, 0x65u8, 0x76u8, 0x69u8, 0x63u8, 0x65u8,
        0x73u8, 0x2fu8, 0x73u8, 0x79u8, 0x73u8, 0x74u8, 0x65u8, 0x6du8, 0x2fu8, 0x63u8, 0x70u8,
        0x75u8, 0x2fu8, 0x63u8, 0x70u8, 0x75u8,
    ]
}

/// The text `/cache/index`.
pub open spec fn cache_dir() -> Seq<u8> {
    seq![
        0x2fu8, 0x63u8, 0x61u8, 0x63u8, 0x68u8, 0x65u8, 0x2fu8, 0x69u8, 0x6eu8, 0x64u8, 0x65u8,
        0x78u8,
    ]
}

/// Path of the file that holds the attribute `attr` of cache `index` of
/// processor `cpu`:
/// `/sys/devices/system/cpu/cpu<cpu>/cache/index<index>/<attr>`.
pub fn get_cache_attr_path(cpu: usize, index: usize, attr: &[u8]) -> (r: Vec<u8>)
    ensures
        r@ == cpu_dir() + decimal(cpu as nat) + cache_dir() + decimal(index as nat) + seq![0x2fu8]
            + attr@,
{
    let mut path: Vec<u8> = vec![
        0x2fu8, 0x73u8, 0x79u8, 0x73u8, 0x2fu8, 0x64u8, 0x65u8, 0x76u8, 0x69u8, 0x63u8, 0x65u8,
        0x73u8, 0x2fu8, 0x73u8, 0x79u8, 0x73u8, 0x74u8, 0x65u8, 0x6du8, 0x2fu8, 0x63u8, 0x70u8,
        0x75u8, 0x2fu8, 0x63u8, 0x70u8, 0x75u8,
    ];
    assert(path@ =~= cpu_dir());
    push_decimal(&mut path, cpu);
    let dir: Vec<u8> = vec![
        0x2fu8, 0x63u8, 0x61u8, 0x63u8, 0x68u8, 0x65u8, 0x2fu8, 0x69u8, 0x6eu8, 0x64u8, 0x65u8,
        0x78u8,
    ];
    assert(dir@ =~= cache_dir());
    append(&mut path, dir.as_slice());
    push_decimal(&mut path, index);
    path.push(0x2f);
    append(&mut path, attr);
    assert(path@ =~= cpu_dir() + decimal(cpu as nat) + cache_dir() + decimal(index as nat) + seq![
        0x2fu8,
    ] + attr@);
    path
}

/// A blank, a tab, a line feed, a vertical tab, a form feed or a carriage
/// return.
pub open spec fn is_space(byte: u8) -> bool {
    byte == 0x20 || (0x09 <= byte <= 0x0d)
}

/// Length of `text` without the white space at its end.
pub open spec fn trimmed_len(text: Seq<u8>) -> int
    decreases text.len(),
{
    if text.len() > 0 && is_space(text.last()) {
        trimmed_len(text.drop_last())
    } else {
        text.len() as int
    }
}

/// `text` without the white space at its end.
pub open spec fn trimmed(text: Seq<u8>) -> Seq<u8> {
    text.take(trimmed_len(text))
}

proof fn lemma_trimmed_len(text: Seq<u8>, len: int)
    requires
        0 <= len <= text.len(),
        forall|k: int| len <= k < text.len() ==> is_space(text[k]),
        len > 0 ==> !is_space(text[len - 1]),
    ensures
        trimmed_len(text) == len,
    decreases text.len(),
{
    if len < text.len() {
        let shorter = text.drop_last();
        lemma_trimmed_len(shorter, len);
    }
}

/// Length of `text` without the white space at its end.
fn trim_end(text: &[u8]) -> (r: usize)
    ensures
        r == trimmed_len(text@),
        r <= text@.len(),
{
    let mut len: usize = text.len();
    while len > 0 && (text[len - 1] == 0x20 || (0x09 <= text[len - 1] && text[len - 1] <= 0x0d))
        invariant
            0 <= len <= text@.len(),
            forall|k: int| len <= k < text@.len() ==> is_space(text@[k]),
        decreases len,
    {
        len = len - 1;
    }
    proof {
        lemma_trimmed_len(text@, len as int);
    }
    len
}

/// Every byte is a decimal digit.
pub open spec fn all_digits(text: Seq<u8>) -> bool {
    forall|i: int| 0 <= i < text.len() ==> 0x30 <= #[trigger] text[i] <= 0x39
}

/// The number that the decimal digits `text` write.
pub open spec fn digits_value(text: Seq<u8>) -> nat
    decreases text.len(),
{
    if text.len() == 0 {
        0
    } else {
        digits_value(text.drop_last()) * 10 + (text.last() - 0x30) as nat
    }
}

/// The number that a text holds: decimal digits, at least one, and white
/// space behind them at most. `None` for every other text and for a number
/// that does not fit the machine word.
pub open spec fn attr_value(text: Seq<u8>) -> Option<usize> {
    let digits = trimmed(text);
    if digits.len() > 0 && all_digits(digits) && digits_value(digits) <= usize::MAX {
        Some(digits_value(digits) as usize)
    } else {
        None
    }
}

proof fn lemma_digits_grow(text: Seq<u8>, upto: int)
    requires
        0 <= upto <= text.len(),
        all_digits(text),
    ensures
        digits_value(text.take(upto)) <= digits_value(text),
    decreases text.len() - upto,
{
    if upto < text.len() {
        lemma_digits_grow(text, upto + 1);
        assert(text.take(upto + 1).drop_last() =~= text.take(upto));
    } else {
        assert(text.take(upto) =~= text);
    }
}

/// Reads the number that the text of a cache attribute holds.
pub fn cache_read_attr(text: &[u8]) -> (r: Option<usize>)
    ensures
        r == attr_value(text@),
{
    let len: usize = trim_end(text);
    let ghost digits = trimmed(text@);
    if len == 0 {
        return None;
    }
    let mut value: usize = 0;
    let mut i: usize = 0;
    proof {
        assert(digits.take(0) =~= Seq::<u8>::empty());
    }
    while i < len
        invariant
            0 <= i <= len,
            len == digits.len(),
            len <= text@.len(),
            digits == text@.take(len as int),
            digits == trimmed(text@),
            all_digits(digits.take(i as int)),
            value == digits_value(digits.take(i as int)),
        decreases len - i,
    {
        let byte: u8 = text[i];
        if byte < 0x30 || byte > 0x39 {
            assert(digits[i as int] == byte);
            return None;
        }
        proof {
            assert(digits.take(i + 1).drop_last() =~= digits.take(i as int));
            assert(digits.take(i + 1).last() == byte);
            assert forall|k: int| 0 <= k < i + 1 implies 0x30 <= #[trigger] digits.take(i + 1)[k]
                <= 0x39 by {
                if k < i {
                    assert(digits.take(i as int)[k] == digits.take(i + 1)[k]);
                }
            }
        }
        let ghost next = digits_value(digits.take(i + 1));
        let scaled: usize = match value.checked_mul(10) {
            Some(s) => s,
            None => {
                proof {
                    if all_digits(digits) {
                        lemma_digits_grow(digits, i + 1);
                    }
                }
                return None;
            },
        };
        value = match scaled.checked_add((byte - 0x30) as usize) {
            Some(v) => v,
            None => {
                proof {
                    if all_digits(digits) {
                        lemma_digits_grow(digits, i + 1);
                    }
                }
                return None;
            },
        };
        i = i + 1;
    }
    proof {
        assert(digits.take(len as int) =~= digits);
    }
    Some(value)
}

/// The text `Data`.
pub open spec fn data_text() -> Seq<u8> {
    seq![0x44u8, 0x61u8, 0x74u8, 0x61u8]
}

/// The text `Instruction`.
pub open spec fn instruction_text() -> Seq<u8> {
    seq![
        0x49u8, 0x6eu8, 0x73u8, 0x74u8, 0x72u8, 0x75u8, 0x63u8, 0x74u8, 0x69u8, 0x6fu8, 0x6eu8,
    ]
}

/// The text `Unified`.
pub open spec fn unified_text() -> Seq<u8> {
    seq![0x55u8, 0x6eu8, 0x69u8, 0x66u8, 0x69u8, 0x65u8, 0x64u8]
}

/// The kind of cache that a text names, white space at its end aside.
pub open spec fn type_value(text: Seq<u8>) -> Option<CacheType> {
    if trimmed(text) == data_text() {
        Some(CacheType::Data)
    } else if trimmed(text) == instruction_text() {
        Some(CacheType::Instruction)
    } else if trimmed(text) == unified_text() {
        Some(CacheType::Unified)
    } else {
        None
    }
}

/// Whether the first `len` bytes of `text` are `word`.
fn is_word(text: &[u8], len: usize, word: &[u8]) -> (r: bool)
    requires
        len <= text@.len(),
    ensures
        r == (text@.take(len as int) == word@),
{
    if len != word.len() {
        return false;
    }
    let mut i: usize = 0;
    while i < len
        invariant
            0 <= i <= len,
            len == word@.len(),
            len <= text@.len(),
            forall|k: int| 0 <= k < i ==> text@[k] == word@[k],
        decreases len - i,
    {
        if text[i] != word[i] {
            assert(text@.take(len as int)[i as int] != word@[i as int]);
            return false;
        }
        i = i + 1;
    }
    assert(text@.take(len as int) =~= word@);
    true
}

/// Reads the kind of cache that the text of the attribute `type` names.
pub fn cache_read_type(text: &[u8]) -> (r: Option<CacheType>)
    ensures
        r == type_value(text@),
{
    let len: usize = trim_end(text);
    let data: Vec<u8> = vec![0x44u8, 0x61u8, 0x74u8, 0x61u8];
    let instruction: Vec<u8> = vec![
        0x49u8, 0x6eu8, 0x73u8, 0x74u8, 0x72u8, 0x75u8, 0x63u8, 0x74u8, 0x69u8, 0x6fu8, 0x6eu8,
    ];
    let unified: Vec<u8> = vec![0x55u8, 0x6eu8, 0x69u8, 0x66u8, 0x69u8, 0x65u8, 0x64u8];
    assert(data@ =~= data_text());
    assert(instruction@ =~= instruction_text());
    assert(unified@ =~= unified_text());
    if is_word(text, len, data.as_slice()) {
        Some(CacheType::Data)
    } else if is_word(text, len, instruction.as_slice()) {
        Some(CacheType::Instruction)
    } else if is_word(text, len, unified.as_slice()) {
        Some(CacheType::Unified)
    } else {
        None
    }
}

/// What the three attribute texts of a cache say, or `None` where one of
/// them cannot be read.
pub open spec fn cache_value(level: Seq<u8>, cls: Seq<u8>, cache_type: Seq<u8>) -> Option<Cache> {
    if attr_value(level).is_some() && attr_value(cls).is_some() && type_value(
        cache_type,
    ).is_some() {
        Some(
            Cache {
                level: attr_value(level).unwrap(),
                cls: attr_value(cls).unwrap(),
                cache_type: type_value(cache_type).unwrap(),
            },
        )
    } else {
        None
    }
}

/// Reads the description of a cache from the texts of its attributes
/// `level`, `coherency_line_size` and `type`.
pub fn read_cache(level: &[u8], cls: &[u8], cache_type: &[u8]) -> (r: Option<Cache>)
    ensures
        r == cache_value(level@, cls@, cache_type@),
{
    let level = match cache_read_attr(level) {
        Some(l) => l,
        None => { return None; },
    };
    let cls = match cache_read_attr(cls) {
        Some(c) => c,
        None => { return None; },
    };
    let cache_type = match cache_read_type(cache_type) {
        Some(t) => t,
        None => { return None; },
    };
    Some(Cache { level, cls, cache_type })
}

} // verus!
