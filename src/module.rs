//! A loaded module's image: bounds-checked addresses and string reads at
//! handle-relative offsets, and signature scans resolved into
//! module-relative offsets.
use vstd::arithmetic::div_mod::{
    lemma_fundamental_div_mod, lemma_mod_multiples_vanish, lemma_small_mod,
};
use vstd::prelude::*;
use vstd::string::StringSliceAdditionalSpecFns;
use vstd::utf8::{encode_utf8, valid_utf8};

use crate::pattern::{
    has_match, is_first_match, lemma_first_match_unique, matches_at, parse_pattern,
    parsed_tokens, scan, scan_outcome, PatternError, Token,
};

verus! {

/// Where a module lies, as reported by the module table: its handle's
/// numeric value, its base address and the size of its image in bytes.
#[derive(Clone, Copy, Debug, PartialEq, Eq, Structural)]
pub struct ModuleLocation {
    pub handle: usize,
    pub base_address: usize,
    pub size: u32,
}

/// Why a module descriptor could not be made.
#[derive(Clone, Copy, Debug, PartialEq, Eq, Structural)]
pub enum ModuleError {
    /// The module table holds no module of that name, or reported it at
    /// base address zero or with an empty image.
    NotFound,
    /// The image bytes handed over are not as long as the module's size.
    ImageSizeMismatch,
    /// The image would end past the last address.
    RangeOverflow,
}

/// Why a null-terminated string could not be read from the image.
#[derive(Clone, Copy, Debug, PartialEq, Eq, Structural)]
pub enum ReadError {
    /// The first byte lies outside the image.
    OutOfImage,
    /// No zero byte follows before the image ends.
    Unterminated,
    /// The bytes before the terminator are not valid UTF-8.
    Decode,
}

/// Why a signature scan could not produce an offset.
#[derive(Clone, Copy, Debug, PartialEq, Eq, Structural)]
pub enum ScanError {
    /// The signature's text is not a pattern.
    Pattern(PatternError),
    /// The pointer read next to the match would not lie wholly in the image.
    PointerOutOfImage,
}

/// The width in bytes of a stored pointer.
pub const POINTER_BYTES: usize = 8;

/// The number of distinct `usize` values.
pub open spec fn word_modulus() -> int {
    usize::MAX as int + 1
}

/// The value of bytes read as a little-endian unsigned integer.
pub open spec fn le_value(bytes: Seq<u8>) -> nat
    decreases bytes.len(),
{
    if bytes.len() == 0 {
        0
    } else {
        bytes[0] as nat + 256 * le_value(bytes.drop_first())
    }
}

/// The pointer stored at index `at` of `image`.
pub open spec fn stored_pointer(image: Seq<u8>, at: int) -> nat {
    le_value(image.subrange(at, at + POINTER_BYTES as int))
}

/// A whole pointer fits in an image of `size` bytes at index `at`.
pub open spec fn pointer_in_image(size: int, at: int) -> bool {
    0 <= at && at + POINTER_BYTES as int <= size
}

/// The stored address `value` made relative to `base`, plus `extra`, as a
/// `usize` computes it: modulo the word size.
pub open spec fn relativize(value: int, base: int, extra: int) -> int {
    (value - base + extra) % word_modulus()
}

/// `end` is the index of the first zero byte of `image` at or after `start`.
pub open spec fn terminator_at(image: Seq<u8>, start: int, end: int) -> bool {
    &&& 0 <= start <= end < image.len()
    &&& image[end] == 0
    &&& forall|k: int| start <= k < end ==> #[trigger] image[k] != 0
}

/// What a module descriptor holds.
pub ghost struct ModuleView {
    pub name: Seq<char>,
    pub handle: usize,
    pub size: u32,
    pub base: usize,
    pub image: Seq<u8>,
}

/// What a scan of `view`'s image for the signature text `text` may answer,
/// where `offset` leads from the match to the stored pointer and `extra` is
/// added to the relativized pointer.
pub open spec fn pattern_scan_outcome(
    view: ModuleView,
    text: Seq<u8>,
    offset: int,
    extra: int,
    r: Result<Option<usize>, ScanError>,
) -> bool {
    match r {
        Err(ScanError::Pattern(PatternError::MalformedToken)) => parsed_tokens(text) is None,
        Err(ScanError::Pattern(PatternError::Empty)) => parsed_tokens(text) == Some(
            Seq::<Token>::empty(),
        ),
        Ok(None) => parsed_tokens(text) matches Some(t) && t.len() > 0 && !has_match(
            view.image,
            t,
        ),
        Err(ScanError::PointerOutOfImage) => parsed_tokens(text) matches Some(t) && t.len() > 0
            && exists|i: int|
            #[trigger] is_first_match(view.image, t, i) && !pointer_in_image(
                view.size as int,
                i + offset,
            ),
        Ok(Some(v)) => parsed_tokens(text) matches Some(t) && t.len() > 0 && exists|i: int|
            #[trigger] is_first_match(view.image, t, i) && pointer_in_image(
                view.size as int,
                i + offset,
            ) && v == relativize(
                stored_pointer(view.image, i + offset) as int,
                view.base as int,
                extra,
            ),
    }
}

/// A descriptor of one loaded module: its name, handle, base address, image
/// size, and the bytes of its image, which lie at `base .. base + size`.
pub struct Module<'a> {
    module_name: &'a str,
    module_handle: usize,
    module_size: u32,
    module_base_address: usize,
    image: &'a [u8],
}

impl<'a> View for Module<'a> {
    type V = ModuleView;

    closed spec fn view(&self) -> ModuleView {
        ModuleView {
            name: self.module_name@,
            handle: self.module_handle,
            size: self.module_size,
            base: self.module_base_address,
            image: self.image@,
        }
    }
}

impl<'a> Module<'a> {
    /// The image is not empty, begins above address zero, is exactly as
    /// long as the module's size, and ends within the address space.
    #[verifier::type_invariant]
    spec fn well_formed(self) -> bool {
        &&& self.module_base_address != 0
        &&& self.module_size > 0
        &&& self.image@.len() == self.module_size as int
        &&& self.module_base_address as int + self.module_size as int <= usize::MAX as int
    }

    /// Makes the descriptor of the module `module_name` from what the
    /// module table reported of it (`None` when it holds no such module) and
    /// the bytes of its image. A location at base address zero or of size
    /// zero is the table's sentinel for a failed lookup, and is refused.
    pub fn from_module_name(
        module_name: &'a str,
        location: Option<ModuleLocation>,
        image: &'a [u8],
    ) -> (r: Result<Module<'a>, ModuleError>)
        ensures
            match location {
                None => r == Err::<Module<'a>, ModuleError>(ModuleError::NotFound),
                Some(loc) => if loc.base_address == 0 || loc.size == 0 {
                    r == Err::<Module<'a>, ModuleError>(ModuleError::NotFound)
                } else if image@.len() != loc.size as int {
                    r == Err::<Module<'a>, ModuleError>(ModuleError::ImageSizeMismatch)
                } else if loc.base_address as int + loc.size as int > usize::MAX as int {
                    r == Err::<Module<'a>, ModuleError>(ModuleError::RangeOverflow)
                } else {
                    r matches Ok(m) && m@ == (ModuleView {
                        name: module_name@,
                        handle: loc.handle,
                        size: loc.size,
                        base: loc.base_address,
                        image: image@,
                    })
                },
            },
            r matches Ok(m) ==> m@.base != 0 && m@.size > 0,
    {
        let loc = match location {
            None => {
                return Err(ModuleError::NotFound);
            },
            Some(loc) => loc,
        };
        if loc.base_address == 0 || loc.size == 0 {
            return Err(ModuleError::NotFound);
        }
        if image.len() != loc.size as usize {
            return Err(ModuleError::ImageSizeMismatch);
        }
        if loc.base_address > usize::MAX - image.len() {
            return Err(ModuleError::RangeOverflow);
        }
        Ok(Module {
            module_name,
            module_handle: loc.handle,
            module_size: loc.size,
            module_base_address: loc.base_address,
            image,
        })
    }

    /// The module's name.
    pub fn module_name(&self) -> (r: &'a str)
        ensures
            r@ == self@.name,
    {
        self.module_name
    }

    /// The numeric value of the module's handle.
    pub fn module_handle(&self) -> (r: usize)
        ensures
            r == self@.handle,
    {
        self.module_handle
    }

    /// The size of the module's image in bytes.
    pub fn module_size(&self) -> (r: u32)
        ensures
            r == self@.size,
    {
        self.module_size
    }

    /// The address at which the module's image begins.
    pub fn module_base_address(&self) -> (r: usize)
        ensures
            r == self@.base,
    {
        self.module_base_address
    }

    /// The bytes of the module's image.
    pub fn image(&self) -> (r: &'a [u8])
        ensures
            r@ == self@.image,
            r@.len() == self@.size as int,
            self@.base != 0,
            self@.size > 0,
            self@.base as int + self@.size as int <= usize::MAX as int,
    {
        proof {
            use_type_invariant(self);
        }
        self.image
    }

    /// The address of a `T` at `address` bytes from the handle's numeric
    /// value, when the whole `T` lies in the image.
    pub fn read<T>(&self, address: i32) -> (r: Option<usize>)
        ensures
            ({
                let at = self@.handle as int + address as int;
                &&& r is Some <==> (self@.base as int <= at && at + vstd::layout::size_of::<T>()
                    <= self@.base as int + self@.size as int)
                &&& r matches Some(p) ==> p as int == at
            }),
    {
        proof {
            use_type_invariant(self);
        }
        let at: i128 = self.module_handle as i128 + address as i128;
        let width = core::mem::size_of::<T>();
        let end: i128 = self.module_base_address as i128 + self.module_size as i128;
        if (self.module_base_address as i128) <= at && at + width as i128 <= end {
            Some(at as usize)
        } else {
            None
        }
    }

    /// The address at which a `T` may be written at `address` bytes from the
    /// handle's numeric value, when the whole `T` lies in the image.
    pub fn read_mut<T>(&self, address: i32) -> (r: Option<usize>)
        ensures
            ({
                let at = self@.handle as int + address as int;
                &&& r is Some <==> (self@.base as int <= at && at + vstd::layout::size_of::<T>()
                    <= self@.base as int + self@.size as int)
                &&& r matches Some(p) ==> p as int == at
            }),
    {
        self.read::<T>(address)
    }

    /// Reads the UTF-8 text that starts `address` bytes from the handle's
    /// numeric value and runs up to the next zero byte. The read never
    /// leaves the image.
    pub fn read_string(&self, address: i32) -> (r: Result<String, ReadError>)
        ensures
            ({
                let start = self@.handle as int + address as int - self@.base as int;
                match r {
                    Err(ReadError::OutOfImage) => !(0 <= start < self@.image.len()),
                    Err(ReadError::Unterminated) => 0 <= start < self@.image.len() && forall|k: int|
                        start <= k < self@.image.len() ==> #[trigger] self@.image[k] != 0,
                    Err(ReadError::Decode) => exists|end: int|
                        #[trigger] terminator_at(self@.image, start, end) && !valid_utf8(
                            self@.image.subrange(start, end),
                        ),
                    Ok(s) => exists|end: int|
                        #[trigger] terminator_at(self@.image, start, end) && encode_utf8(s@)
                            == self@.image.subrange(start, end),
                }
            }),
    {
        proof {
            use_type_invariant(self);
        }
        let ghost start = self@.handle as int + address as int - self@.base as int;
        let first: i128 = self.module_handle as i128 + address as i128
            - self.module_base_address as i128;
        let n = self.image.len();
        if first < 0 || first >= n as i128 {
            return Err(ReadError::OutOfImage);
        }
        let first = first as usize;
        let mut end: usize = first;
        while end < n && self.image[end] != 0
            invariant
                n == self.image@.len(),
                first == start,
                first <= end <= n,
                forall|k: int| first <= k < end ==> #[trigger] self.image@[k] != 0,
            decreases n - end,
        {
            end = end + 1;
        }
        if end == n {
            return Err(ReadError::Unterminated);
        }
        assert(terminator_at(self@.image, start, end as int));
        let mut bytes: Vec<u8> = Vec::new();
        let mut k: usize = first;
        while k < end
            invariant
                first <= k <= end < n,
                n == self.image@.len(),
                bytes@ == self.image@.subrange(first as int, k as int),
            decreases end - k,
        {
            bytes.push(self.image[k]);
            k = k + 1;
            assert(bytes@ =~= self.image@.subrange(first as int, k as int));
        }
        match utf8_string(bytes) {
            Some(s) => Ok(s),
            None => Err(ReadError::Decode),
        }
    }

    /// Scans the image for the signature text `pattern`; at the first match,
    /// reads the pointer stored `offset` bytes from it, and returns that
    /// pointer less the base address, plus `extra`, modulo the word size.
    pub fn pattern_scan(&self, pattern: &str, offset: isize, extra: usize) -> (r: Result<
        Option<usize>,
        ScanError,
    >)
        ensures
            pattern_scan_outcome(self@, pattern.spec_bytes(), offset as int, extra as int, r),
    {
        proof {
            use_type_invariant(self);
        }
        let tokens = match parse_pattern(pattern) {
            Ok(t) => t,
            Err(e) => {
                return Err(ScanError::Pattern(e));
            },
        };
        let base = self.module_base_address;
        let found = scan(base, self.image, tokens.as_slice());
        let a = match found {
            None => {
                return Ok(None);
            },
            Some(a) => a,
        };
        let i = a - base;
        assert(is_first_match(self@.image, tokens@, i as int));
        let at: i128 = i as i128 + offset as i128;
        if at < 0 || at + POINTER_BYTES as i128 > self.module_size as i128 {
            return Err(ScanError::PointerOutOfImage);
        }
        let value = pointer_at(self.image, at as usize);
        let m: u128 = usize::MAX as u128 + 1;
        let sum: u128 = value as u128 % m + (m - base as u128) + extra as u128;
        let resolved = (sum % m) as usize;
        proof {
            lemma_relativize_by_residue(value as int, base as int, extra as int, m as int);
        }
        Ok(Some(resolved))
    }
}

proof fn lemma_relativize_by_residue(value: int, base: int, extra: int, m: int)
    requires
        m > 0,
        0 <= value,
    ensures
        (value % m + (m - base) + extra) % m == (value - base + extra) % m,
{
    let q = value / m;
    lemma_fundamental_div_mod(value, m);
    assert(value % m + (m - base) + extra == m * (1 - q) + (value - base + extra)) by (nonlinear_arith)
        requires
            value == m * q + value % m,
    ;
    lemma_mod_multiples_vanish(1 - q, value - base + extra, m);
}

/// A signature scan of a module resolves the first match: when the text
/// reads as `tokens`, a scan of the image from the base address finds
/// address `a`, and a whole pointer is stored `offset` bytes after `a`, the
/// scan answers that pointer less the base address, plus `extra`, modulo
/// the word size; where that difference plus `extra` is a `usize`, the
/// answer is exactly that value.
pub proof fn lemma_pattern_scan_resolves_match(
    view: ModuleView,
    text: Seq<u8>,
    tokens: Seq<Token>,
    offset: int,
    extra: int,
    a: usize,
    r: Result<Option<usize>, ScanError>,
)
    requires
        parsed_tokens(text) == Some(tokens),
        scan_outcome(view.base as int, view.image, tokens, Some(a)),
        pointer_in_image(view.size as int, a - view.base + offset),
        pattern_scan_outcome(view, text, offset, extra, r),
    ensures
        r matches Ok(Some(v)) && v == relativize(
            stored_pointer(view.image, a - view.base + offset) as int,
            view.base as int,
            extra,
        ),
        ({
            let p = stored_pointer(view.image, a - view.base + offset) as int;
            0 <= extra && view.base as int <= p && p - view.base + extra <= usize::MAX as int
                ==> (r matches Ok(Some(v)) && v == p - view.base + extra)
        }),
{
    let p = stored_pointer(view.image, a - view.base + offset) as int;
    if 0 <= extra && view.base as int <= p && p - view.base + extra <= usize::MAX as int {
        lemma_small_mod((p - view.base + extra) as nat, word_modulus() as nat);
    }
    let i = a - view.base;
    assert(matches_at(view.image, tokens, i));
    match r {
        Ok(Some(v)) => {
            let j = choose|j: int|
                #[trigger] is_first_match(view.image, tokens, j) && pointer_in_image(
                    view.size as int,
                    j + offset,
                ) && v == relativize(
                    stored_pointer(view.image, j + offset) as int,
                    view.base as int,
                    extra,
                );
            lemma_first_match_unique(view.image, tokens, i, j);
        },
        Err(ScanError::PointerOutOfImage) => {
            let j = choose|j: int|
                #[trigger] is_first_match(view.image, tokens, j) && !pointer_in_image(
                    view.size as int,
                    j + offset,
                );
            lemma_first_match_unique(view.image, tokens, i, j);
        },
        _ => {},
    }
}

/// A signature of wildcards only, no longer than the image, matches at the
/// base address: the scan answers the pointer stored `offset` bytes after
/// the base, less the base address, plus `extra`, modulo the word size.
pub proof fn lemma_pattern_scan_all_wildcards(
    view: ModuleView,
    text: Seq<u8>,
    tokens: Seq<Token>,
    offset: int,
    extra: int,
    r: Result<Option<usize>, ScanError>,
)
    requires
        parsed_tokens(text) == Some(tokens),
        0 < tokens.len() <= view.image.len(),
        forall|k: int| 0 <= k < tokens.len() ==> #[trigger] tokens[k] == Token::Wildcard,
        pointer_in_image(view.size as int, offset),
        pattern_scan_outcome(view, text, offset, extra, r),
    ensures
        r matches Ok(Some(v)) && v == relativize(
            stored_pointer(view.image, offset) as int,
            view.base as int,
            extra,
        ),
{
    assert(matches_at(view.image, tokens, 0));
    assert(scan_outcome(view.base as int, view.image, tokens, Some(view.base)));
    lemma_pattern_scan_resolves_match(view, text, tokens, offset, extra, view.base, r);
}

/// Relies on `String::from_utf8`: it accepts exactly the valid UTF-8 byte
/// sequences, and the string it returns has those bytes.
#[verifier::external_body]
fn utf8_string(bytes: Vec<u8>) -> (r: Option<String>)
    ensures
        r is Some <==> valid_utf8(bytes@),
        r matches Some(s) ==> encode_utf8(s@) == bytes@,
{
    String::from_utf8(bytes).ok()
}

/// Reads the pointer stored little-endian at index `at` of `image`.
fn pointer_at(image: &[u8], at: usize) -> (r: u64)
    requires
        at + POINTER_BYTES <= image@.len(),
    ensures
        r as nat == stored_pointer(image@, at as int),
{
    let n = image.len();
    let mut acc: u64 = 0;
    let mut k: usize = POINTER_BYTES;
    while k > 0
        invariant
            n == image@.len(),
            at + POINTER_BYTES <= image@.len(),
            k <= POINTER_BYTES,
            acc as nat == le_value(image@.subrange(at + k, at + POINTER_BYTES)),
            acc < pow256((POINTER_BYTES - k) as nat),
        decreases k,
    {
        let ghost tail = image@.subrange(at + k, at + POINTER_BYTES);
        let ghost longer = image@.subrange(at + k - 1, at + POINTER_BYTES);
        assert(longer.drop_first() =~= tail);
        let b = image[at + k - 1];
        assert(longer[0] == b);
        proof {
            lemma_pow256_step((POINTER_BYTES - k) as nat);
            lemma_pow256_eight();
            let p = pow256((POINTER_BYTES - k) as nat);
            assert(acc * 256 + b < p * 256) by (nonlinear_arith)
                requires
                    acc < p,
                    b < 256,
            ;
            assert(p * 256 <= pow256(8)) by (nonlinear_arith)
                requires
                    p <= pow256(7),
            ;
        }
        acc = b as u64 + 256 * acc;
        k = k - 1;
    }
    assert(image@.subrange(at as int, at + POINTER_BYTES) =~= image@.subrange(at + k, at + POINTER_BYTES));
    acc
}

/// `256` raised to `n`.
spec fn pow256(n: nat) -> nat
    decreases n,
{
    if n == 0 {
        1
    } else {
        256 * pow256((n - 1) as nat)
    }
}

proof fn lemma_pow256_step(n: nat)
    requires
        n < 8,
    ensures
        pow256(n + 1) == 256 * pow256(n),
        pow256(n) <= pow256(7),
    decreases 7 - n,
{
    if n < 7 {
        lemma_pow256_step(n + 1);
    }
}

proof fn lemma_pow256_eight()
    ensures
        pow256(8) == 0x1_0000_0000_0000_0000,
{
    reveal_with_fuel(pow256, 9);
}

} // verus!
