//! The application loader: the header of the application image, where each
//! application is copied to and run from, and the tables that the loaded
//! applications use.
//!
//! The image starts with a text header `n|s1|s2|...|sn` ended by a NUL byte,
//! where `n` is the number of applications and `si` the size in bytes of the
//! i-th one; the applications follow the NUL byte back to back.

use vstd::prelude::*;
use crate::bytes::{first_nul_at, slice_subrange, str_from_utf8_is_ok};
use vstd::utf8::valid_utf8;

verus! {

/// The byte is an ASCII decimal digit.
pub open spec fn is_digit(b: u8) -> bool {
    48 <= b <= 57
}

/// Every byte is an ASCII decimal digit.
pub open spec fn all_digits(s: Seq<u8>) -> bool {
    forall|i: int| 0 <= i < s.len() ==> #[trigger] is_digit(s[i])
}

/// The number that a string of decimal digits writes.
pub open spec fn digits_value(s: Seq<u8>) -> nat
    decreases s.len(),
{
    if s.len() == 0 {
        0
    } else {
        digits_value(s.drop_last()) * 10 + (s.last() - 48) as nat
    }
}

/// The digits of an unsigned number as written: a leading `+` is dropped
/// when something follows it.
pub open spec fn unsigned_digits(s: Seq<u8>) -> Seq<u8> {
    if s.len() > 1 && s[0] == 43 {
        s.drop_first()
    } else {
        s
    }
}

/// What parsing the text `s` as a `usize` gives: the number, when `s` is an
/// optional `+` followed by one or more decimal digits and the number fits.
pub open spec fn usize_of_field(s: Seq<u8>) -> Option<usize> {
    let d = unsigned_digits(s);
    if d.len() > 0 && all_digits(d) && digits_value(d) <= usize::MAX {
        Some(digits_value(d) as usize)
    } else {
        None
    }
}

/// The fields of `s` between the `|` separators, in order; there is always
/// at least one.
pub open spec fn split_fields(s: Seq<u8>) -> Seq<Seq<u8>>
    decreases s.len(),
{
    if s.len() == 0 {
        seq![Seq::<u8>::empty()]
    } else {
        let prev = split_fields(s.drop_last());
        if s.last() == 124 {
            prev.push(Seq::<u8>::empty())
        } else {
            prev.update(prev.len() - 1, prev.last().push(s.last()))
        }
    }
}

/// The number of applications and their sizes that the header text `s`
/// gives, when it is valid UTF-8, its first field is a number `n` and it has
/// `n` further fields that are numbers.
pub open spec fn head_of(s: Seq<u8>) -> Option<(usize, Seq<usize>)> {
    let f = split_fields(s);
    if !valid_utf8(s) {
        None
    } else {
        match usize_of_field(f[0]) {
            None => None,
            Some(n) => {
                if f.len() >= n + 1 && forall|i: int| 0 <= i < n ==> #[trigger] usize_of_field(f[i + 1]) is Some {
                    Some((n, Seq::new(n as nat, |i: int| usize_of_field(f[i + 1])->0)))
                } else {
                    None
                }
            },
        }
    }
}

proof fn lemma_split_fields_nonempty(s: Seq<u8>)
    ensures
        split_fields(s).len() >= 1,
    decreases s.len(),
{
    if s.len() > 0 {
        lemma_split_fields_nonempty(s.drop_last());
    }
}

proof fn lemma_digits_value_monotone(s: Seq<u8>, k: int)
    requires
        0 <= k <= s.len(),
        all_digits(s),
    ensures
        digits_value(s.take(k)) <= digits_value(s),
    decreases s.len(),
{
    if k < s.len() {
        let p = s.drop_last();
        assert(all_digits(p)) by {
            assert forall|i: int| 0 <= i < p.len() implies #[trigger] is_digit(p[i]) by {
                assert(is_digit(s[i]));
            }
        }
        lemma_digits_value_monotone(p, k);
        assert(p.take(k) =~= s.take(k));
    } else {
        assert(s.take(k) =~= s);
    }
}

/// The decimal digits of `n`, most significant first, without leading
/// zeros.
pub open spec fn decimal_digits(n: nat) -> Seq<u8>
    decreases n,
{
    if n < 10 {
        seq![(48 + n) as u8]
    } else {
        decimal_digits(n / 10).push((48 + n % 10) as u8)
    }
}

proof fn lemma_decimal_digits(n: nat)
    ensures
        decimal_digits(n).len() >= 1,
        all_digits(decimal_digits(n)),
        digits_value(decimal_digits(n)) == n,
    decreases n,
{
    let s = decimal_digits(n);
    if n < 10 {
        assert(s.drop_last() =~= Seq::<u8>::empty());
        assert(s.last() == (48 + n) as u8);
        assert(digits_value(s.drop_last()) == 0);
        assert(digits_value(s) == digits_value(s.drop_last()) * 10 + (s.last() - 48) as nat);
    } else {
        lemma_decimal_digits(n / 10);
        let p = decimal_digits(n / 10);
        assert(s.drop_last() =~= p);
        assert(n % 10 < 10);
        assert(s.last() == (48 + n % 10) as u8);
        assert((s.last() - 48) as nat == n % 10);
        assert((n / 10) * 10 + n % 10 == n);
        assert(digits_value(s) == digits_value(s.drop_last()) * 10 + (s.last() - 48) as nat);
        assert forall|i: int| 0 <= i < s.len() implies #[trigger] is_digit(s[i]) by {
            if i < p.len() {
                assert(s[i] == p[i]);
            }
        }
    }
}

/// A number written in decimal parses back to itself.
pub proof fn lemma_parse_decimal_roundtrip(n: usize)
    ensures
        usize_of_field(decimal_digits(n as nat)) == Some(n),
{
    lemma_decimal_digits(n as nat);
    let s = decimal_digits(n as nat);
    assert(is_digit(s[0]));
    assert(unsigned_digits(s) == s);
}

/// The header text `n|s1|...|sk` for `n` and the sizes `s1..sk`, each
/// number in decimal.
pub open spec fn header_text(n: usize, sizes: Seq<usize>) -> Seq<u8>
    decreases sizes.len(),
{
    if sizes.len() == 0 {
        decimal_digits(n as nat)
    } else {
        header_text(n, sizes.drop_last()) + seq![124u8] + decimal_digits(sizes.last() as nat)
    }
}

proof fn lemma_ascii_is_utf8(s: Seq<u8>)
    requires
        forall|i: int| 0 <= i < s.len() ==> s[i] < 128,
    ensures
        valid_utf8(s),
{
    assert(s.subrange(0, 0) =~= Seq::<u8>::empty());
    assert(forall|i: int|
        0 <= 0 <= i < s.len() <= s.len() ==> #[trigger] vstd::utf8::is_leading_byte_width_1(s[i]));
    vstd::utf8::partial_valid_utf8_extend_ascii_block(s, 0, s.len() as int);
    assert(s.subrange(0, s.len() as int) =~= s);
}

proof fn lemma_split_append_plain(a: Seq<u8>, b: Seq<u8>)
    requires
        forall|i: int| 0 <= i < b.len() ==> b[i] != 124,
    ensures
        split_fields(a + b) == split_fields(a).update(
            split_fields(a).len() - 1,
            split_fields(a).last() + b,
        ),
    decreases b.len(),
{
    lemma_split_fields_nonempty(a);
    let f = split_fields(a);
    if b.len() == 0 {
        assert(a + b =~= a);
        assert(f.last() + b =~= f.last());
        assert(f.update(f.len() - 1, f.last()) =~= f);
    } else {
        let b0 = b.drop_last();
        lemma_split_append_plain(a, b0);
        assert((a + b).drop_last() =~= a + b0);
        assert((a + b).last() == b.last());
        assert((f.last() + b0).push(b.last()) =~= f.last() + b);
        assert(f.update(f.len() - 1, f.last() + b0).update(f.len() - 1, f.last() + b) =~= f.update(
            f.len() - 1,
            f.last() + b,
        ));
    }
}

proof fn lemma_header_text_fields(n: usize, sizes: Seq<usize>)
    ensures
        split_fields(header_text(n, sizes)) == seq![decimal_digits(n as nat)] + sizes.map_values(
            |x: usize| decimal_digits(x as nat),
        ),
        forall|i: int|
            0 <= i < header_text(n, sizes).len() ==> #[trigger] header_text(n, sizes)[i] < 128,
    decreases sizes.len(),
{
    let h = header_text(n, sizes);
    if sizes.len() == 0 {
        lemma_decimal_digits(n as nat);
        let d = decimal_digits(n as nat);
        assert(d =~= Seq::<u8>::empty() + d);
        assert forall|i: int| 0 <= i < d.len() implies d[i] != 124 by {
            assert(is_digit(d[i]));
        }
        lemma_split_append_plain(Seq::<u8>::empty(), d);
        assert(split_fields(Seq::<u8>::empty()).update(0, Seq::<u8>::empty() + d) =~= seq![d]);
        assert(seq![d] + sizes.map_values(|x: usize| decimal_digits(x as nat)) =~= seq![d]);
        assert forall|i: int| 0 <= i < h.len() implies #[trigger] h[i] < 128 by {
            assert(is_digit(d[i]));
        }
    } else {
        let prev = header_text(n, sizes.drop_last());
        lemma_header_text_fields(n, sizes.drop_last());
        let d = decimal_digits(sizes.last() as nat);
        lemma_decimal_digits(sizes.last() as nat);
        let bar = prev + seq![124u8];
        assert(bar.drop_last() =~= prev);
        assert(bar.last() == 124u8);
        assert(split_fields(bar) == split_fields(prev).push(Seq::<u8>::empty()));
        assert forall|i: int| 0 <= i < d.len() implies d[i] != 124 by {
            assert(is_digit(d[i]));
        }
        lemma_split_append_plain(bar, d);
        assert(h =~= bar + d);
        assert(Seq::<u8>::empty() + d =~= d);
        assert(split_fields(prev).push(Seq::<u8>::empty()).update(
            split_fields(prev).len() as int,
            Seq::<u8>::empty() + d,
        ) =~= split_fields(prev).push(d));
        assert(seq![decimal_digits(n as nat)] + sizes.map_values(|x: usize| decimal_digits(x as nat))
            =~= (seq![decimal_digits(n as nat)] + sizes.drop_last().map_values(
            |x: usize| decimal_digits(x as nat),
        )).push(d));
        assert forall|i: int| 0 <= i < h.len() implies #[trigger] h[i] < 128 by {
            if i < prev.len() {
                assert(h[i] == prev[i]);
            } else if i == prev.len() {
                assert(h[i] == 124u8);
            } else {
                assert(h[i] == d[i - prev.len() - 1]);
                assert(is_digit(d[i - prev.len() - 1]));
            }
        }
    }
}

/// A header written as `n|s1|...|sn` reads back as `n` applications of
/// sizes `s1..sn`.
pub proof fn lemma_header_roundtrip(n: usize, sizes: Seq<usize>)
    requires
        sizes.len() == n,
    ensures
        head_of(header_text(n, sizes)) == Some((n, sizes)),
{
    let h = header_text(n, sizes);
    lemma_header_text_fields(n, sizes);
    lemma_ascii_is_utf8(h);
    let f = split_fields(h);
    lemma_parse_decimal_roundtrip(n);
    assert(f[0] == decimal_digits(n as nat));
    assert forall|i: int| 0 <= i < n implies #[trigger] usize_of_field(f[i + 1]) == Some(sizes[i]) by {
        assert(f[i + 1] == decimal_digits(sizes[i] as nat));
        lemma_parse_decimal_roundtrip(sizes[i]);
    }
    assert(Seq::new(n as nat, |i: int| usize_of_field(f[i + 1])->0) =~= sizes);
}

/// Parses a field as `str::parse::<usize>` does: an optional leading `+`
/// when something follows it, then one or more decimal digits whose number
/// fits in a `usize`.
pub fn parse_usize(s: &[u8]) -> (r: Option<usize>)
    ensures
        r == usize_of_field(s@),
{
    let n = s.len();
    if n == 0 {
        return None;
    }
    let start: usize = if n > 1 && s[0] == 43u8 {
        1
    } else {
        0
    };
    let ghost d = unsigned_digits(s@);
    assert(d =~= s@.subrange(start as int, n as int));
    let mut i: usize = start;
    let mut acc: usize = 0;
    while i < n
        invariant
            start <= i <= n,
            n == s@.len(),
            d == s@.subrange(start as int, n as int),
            d == unsigned_digits(s@),
            all_digits(d.take(i - start)),
            acc == digits_value(d.take(i - start)),
        decreases n - i,
    {
        let b = s[i];
        assert(d[i - start] == s@[i as int]);
        if b < 48u8 || b > 57u8 {
            assert(!is_digit(d[i - start]));
            return None;
        }
        let ghost next = d.take(i - start + 1);
        proof {
            assert(next.drop_last() =~= d.take(i - start));
            assert(next.last() == b);
            assert(all_digits(next)) by {
                assert forall|j: int| 0 <= j < next.len() implies #[trigger] is_digit(next[j]) by {
                    if j < next.len() - 1 {
                        assert(next[j] == d.take(i - start)[j]);
                    }
                }
            }
        }
        let digit: usize = (b - 48u8) as usize;
        match acc.checked_mul(10) {
            None => {
                proof {
                    assert(digits_value(next) == acc * 10 + digit);
                    assert(acc * 10 > usize::MAX);
                    if all_digits(d) {
                        lemma_digits_value_monotone(d, i - start + 1);
                    }
                }
                return None;
            },
            Some(m) => match m.checked_add(digit) {
                None => {
                    proof {
                        assert(digits_value(next) == acc * 10 + digit);
                        assert(digits_value(next) > usize::MAX);
                        if all_digits(d) {
                            lemma_digits_value_monotone(d, i - start + 1);
                        }
                    }
                    return None;
                },
                Some(v) => {
                    acc = v;
                },
            },
        }
        i = i + 1;
    }
    assert(d.take(n - start) =~= d);
    Some(acc)
}

/// Splits `s` at each `|` into the fields between the separators.
pub fn split_fields_exec(s: &[u8]) -> (fields: Vec<Vec<u8>>)
    ensures
        fields@.map_values(|f: Vec<u8>| f@) == split_fields(s@),
{
    let mut fields: Vec<Vec<u8>> = Vec::new();
    let mut cur: Vec<u8> = Vec::new();
    let mut i: usize = 0;
    while i < s.len()
        invariant
            0 <= i <= s@.len(),
            fields@.map_values(|f: Vec<u8>| f@).push(cur@) == split_fields(s@.take(i as int)),
        decreases s@.len() - i,
    {
        let ghost before = fields@.map_values(|f: Vec<u8>| f@).push(cur@);
        proof {
            assert(s@.take(i + 1).drop_last() =~= s@.take(i as int));
            assert(s@.take(i + 1).last() == s@[i as int]);
        }
        if s[i] == 124u8 {
            let done = cur;
            fields.push(done);
            cur = Vec::new();
            assert(fields@.map_values(|f: Vec<u8>| f@).push(cur@) =~= before.push(Seq::<u8>::empty()));
        } else {
            cur.push(s[i]);
            assert(fields@.map_values(|f: Vec<u8>| f@).push(cur@) =~= before.update(
                before.len() - 1,
                before.last().push(s@[i as int]),
            ));
        }
        i = i + 1;
    }
    let ghost before = fields@.map_values(|f: Vec<u8>| f@).push(cur@);
    fields.push(cur);
    assert(fields@.map_values(|f: Vec<u8>| f@) =~= before);
    assert(s@.take(s@.len() as int) =~= s@);
    fields
}

/// The header of an application image.
pub struct AppHead {
    /// The number of applications.
    pub app_num: usize,
    /// The size in bytes of each application, in order.
    pub apps_size: Vec<usize>,
    /// The address of the first application: just past the header's NUL.
    pub start: usize,
}

/// Parses the header text `header` (the bytes before the NUL): `None` when
/// it is not valid UTF-8, its first field is not a number `n`, or it lacks
/// `n` further fields that are numbers.
pub fn parse_head_text(header: &[u8]) -> (r: Option<(usize, Vec<usize>)>)
    ensures
        match head_of(header@) {
            None => r is None,
            Some((n, sizes)) => r matches Some((m, v)) && m == n && v@ == sizes,
        },
{
    if !str_from_utf8_is_ok(header) {
        return None;
    }
    let fields = split_fields_exec(header);
    let ghost f = split_fields(header@);
    proof {
        lemma_split_fields_nonempty(header@);
        assert(fields@.len() == f.len());
        assert forall|i: int| 0 <= i < f.len() implies #[trigger] f[i] == fields@[i]@ by {
            assert(fields@.map_values(|x: Vec<u8>| x@)[i] == fields@[i]@);
        }
    }
    let app_num = match parse_usize(fields[0].as_slice()) {
        None => {
            return None;
        },
        Some(n) => n,
    };
    let mut apps_size: Vec<usize> = Vec::new();
    let mut i: usize = 0;
    while i < app_num
        invariant
            0 <= i <= app_num,
            fields@.len() == f.len(),
            forall|j: int| 0 <= j < f.len() ==> #[trigger] f[j] == fields@[j]@,
            usize_of_field(f[0]) == Some(app_num),
            valid_utf8(header@),
            f == split_fields(header@),
            apps_size@.len() == i,
            i + 1 <= f.len(),
            forall|j: int| 0 <= j < i ==> #[trigger] usize_of_field(f[j + 1]) == Some(apps_size@[j]),
        decreases app_num - i,
    {
        if i + 1 >= fields.len() {
            proof {
                assert(head_of(header@) is None);
            }
            return None;
        }
        match parse_usize(fields[i + 1].as_slice()) {
            None => {
                proof {
                    assert(usize_of_field(f[i + 1]) is None);
                    assert(head_of(header@) is None);
                }
                return None;
            },
            Some(size) => {
                apps_size.push(size);
            },
        }
        i = i + 1;
    }
    proof {
        assert(f.len() >= app_num + 1);
        assert(forall|j: int| 0 <= j < app_num ==> #[trigger] usize_of_field(f[j + 1]) is Some);
        assert(apps_size@ =~= Seq::new(app_num as nat, |j: int| usize_of_field(f[j + 1])->0));
    }
    Some((app_num, apps_size))
}

/// The image holds a well-formed header: it has a NUL byte, the text
/// before the first one reads as a header, and the address just past that
/// NUL fits in a `usize`.
pub open spec fn header_readable(image: Seq<u8>, start: int) -> bool {
    exists|k: int|
        #[trigger] first_nul_at(image, k) && head_of(image.take(k)) is Some && start + k + 1
            <= usize::MAX
}

/// Reads the header at the start of an application image. `image` holds the
/// bytes of memory from address `start` on, up to at least the header's NUL;
/// the header is what comes before the first NUL.
pub fn read_head(image: &[u8], start: usize) -> (h: AppHead)
    requires
        header_readable(image@, start as int),
    ensures
        forall|k: int|
            #[trigger] first_nul_at(image@, k) ==> head_of(image@.take(k)) == Some(
                (h.app_num, h.apps_size@),
            ) && h.start == start + k + 1,
{
    let ghost k0 = choose|k: int|
        #[trigger] first_nul_at(image@, k) && head_of(image@.take(k)) is Some && start + k + 1
            <= usize::MAX;
    let mut k: usize = 0;
    while image[k] != 0
        invariant
            first_nul_at(image@, k0),
            0 <= k <= k0,
        decreases k0 - k,
    {
        k = k + 1;
    }
    let header = slice_subrange(image, 0, k);
    proof {
        assert forall|j: int| first_nul_at(image@, j) implies j == k by {
            crate::bytes::lemma_first_nul_unique(image@, j, k as int);
        }
        assert(header@ == image@.take(k as int));
    }
    match parse_head_text(header) {
        Some((app_num, apps_size)) => AppHead { app_num, apps_size, start: start + k + 1 },
        None => {
            proof {
                assert(false);
            }
            AppHead { app_num: 0, apps_size: Vec::new(), start }
        },
    }
}

/// The number that `s` writes in big-endian byte order.
pub open spec fn be_value(s: Seq<u8>) -> nat
    decreases s.len(),
{
    if s.len() == 0 {
        0
    } else {
        be_value(s.drop_last()) * 256 + s.last() as nat
    }
}

/// Reads a `usize` from its big-endian bytes, as `usize::from_be_bytes`
/// does; `bytes` holds exactly the bytes of a `usize`.
pub fn bytes_to_usize(bytes: &[u8]) -> (r: usize)
    requires
        bytes@.len() == vstd::layout::size_of::<usize>(),
    ensures
        r == be_value(bytes@),
{
    proof {
        vstd::layout::unsigned_int_max_values();
    }
    let n = bytes.len();
    let mut acc: usize = 0;
    let mut i: usize = 0;
    proof {
        vstd::arithmetic::power::lemma_pow0(256);
        assert(bytes@.take(0) =~= Seq::<u8>::empty());
    }
    while i < n
        invariant
            0 <= i <= n,
            n == bytes@.len(),
            usize::MAX + 1 == vstd::arithmetic::power::pow(256, n as nat),
            acc == be_value(bytes@.take(i as int)),
            be_value(bytes@.take(i as int)) < vstd::arithmetic::power::pow(256, i as nat),
        decreases n - i,
    {
        let ghost p = vstd::arithmetic::power::pow(256, i as nat);
        proof {
            let t = bytes@.take(i + 1);
            assert(t.drop_last() =~= bytes@.take(i as int));
            assert(t.last() == bytes@[i as int]);
            vstd::arithmetic::power::lemma_pow_adds(256, i as nat, 1);
            vstd::arithmetic::power::lemma_pow1(256);
            vstd::arithmetic::power::lemma_pow_increases(256, (i + 1) as nat, n as nat);
            assert(acc * 256 + bytes@[i as int] < p * 256);
        }
        acc = acc * 256 + bytes[i] as usize;
        i = i + 1;
    }
    assert(bytes@.take(n as int) =~= bytes@);
    acc
}

/// The total size of the first `i` applications.
pub open spec fn sum_sizes(sizes: Seq<usize>, i: int) -> int
    decreases i,
{
    if i <= 0 {
        0
    } else {
        sum_sizes(sizes, i - 1) + sizes[i - 1]
    }
}

proof fn lemma_sum_sizes_monotone(sizes: Seq<usize>, i: int, j: int)
    requires
        0 <= i <= j,
    ensures
        0 <= sum_sizes(sizes, i) <= sum_sizes(sizes, j),
    decreases j,
{
    if j > i {
        lemma_sum_sizes_monotone(sizes, i, j - 1);
    } else if i > 0 {
        lemma_sum_sizes_monotone(sizes, 0, i - 1);
    }
}

/// Where one application is copied from, where it is copied to and run,
/// and its size in bytes.
pub struct AppLoad {
    pub load_from: usize,
    pub run_at: usize,
    pub size: usize,
}

/// Where the i-th application runs: each gets a slot of `app_space_size`
/// bytes from `run_start` on.
pub open spec fn run_address(run_start: int, app_space_size: int, i: int) -> int {
    run_start + i * app_space_size
}

/// Plans the copy of each application of the image: the i-th is read right
/// after the ones before it and runs in the i-th slot.
pub fn load_plan(head: &AppHead, run_start: usize, app_space_size: usize) -> (plan: Vec<AppLoad>)
    requires
        head.apps_size@.len() >= head.app_num,
        head.start + sum_sizes(head.apps_size@, head.app_num as int) <= usize::MAX,
        head.app_num > 0 ==> run_address(run_start as int, app_space_size as int, head.app_num - 1) <= usize::MAX,
    ensures
        plan@.len() == head.app_num,
        forall|i: int|
            0 <= i < head.app_num ==> {
                &&& #[trigger] plan@[i].load_from == head.start + sum_sizes(head.apps_size@, i)
                &&& plan@[i].run_at == run_address(run_start as int, app_space_size as int, i)
                &&& plan@[i].run_at == run_start + i * app_space_size
                &&& plan@[i].size == head.apps_size@[i]
            },
{
    let n = head.app_num;
    let mut plan: Vec<AppLoad> = Vec::new();
    let mut app_start: usize = head.start;
    let mut i: usize = 0;
    while i < n
        invariant
            0 <= i <= n,
            n == head.app_num,
            head.apps_size@.len() >= n,
            head.start + sum_sizes(head.apps_size@, n as int) <= usize::MAX,
            n > 0 ==> run_address(run_start as int, app_space_size as int, n - 1) <= usize::MAX,
            app_start == head.start + sum_sizes(head.apps_size@, i as int),
            plan@.len() == i,
            forall|j: int|
                0 <= j < i ==> {
                    &&& #[trigger] plan@[j].load_from == head.start + sum_sizes(head.apps_size@, j)
                    &&& plan@[j].run_at == run_address(run_start as int, app_space_size as int, j)
                    &&& plan@[j].size == head.apps_size@[j]
                },
        decreases n - i,
    {
        let app_size = head.apps_size[i];
        proof {
            lemma_sum_sizes_monotone(head.apps_size@, i + 1, n as int);
            assert(i * app_space_size <= (n - 1) * app_space_size) by (nonlinear_arith)
                requires
                    i <= n - 1,
            ;
        }
        let run_at = run_start + i * app_space_size;
        plan.push(AppLoad { load_from: app_start, run_at, size: app_size });
        app_start = app_start + app_size;
        i = i + 1;
    }
    plan
}

/// The slots are laid out evenly from `run_start` on: the first starts at
/// `run_start`, each next one `app_space_size` bytes after the one before,
/// so slot `i` starts at `run_start + i * app_space_size`.
pub proof fn lemma_run_address_linear(run_start: int, app_space_size: int, i: int)
    requires
        0 <= i,
    ensures
        run_address(run_start, app_space_size, 0) == run_start,
        run_address(run_start, app_space_size, i + 1) == run_address(run_start, app_space_size, i)
            + app_space_size,
        run_address(run_start, app_space_size, i) == run_start + i * app_space_size,
{
    assert((i + 1) * app_space_size == i * app_space_size + app_space_size) by (nonlinear_arith);
}

/// Each application is read from right after the one before it, so the
/// loaded ranges are consecutive and do not overlap.
pub proof fn lemma_loads_consecutive(start: int, sizes: Seq<usize>, i: int)
    requires
        0 <= i,
    ensures
        start + sum_sizes(sizes, i) + sizes[i] == start + sum_sizes(sizes, i + 1),
{
}

/// When no application is larger than its slot, the ranges the
/// applications run in do not overlap: each ends at or before the start of
/// every later one.
pub proof fn lemma_run_ranges_disjoint(
    run_start: int,
    app_space_size: int,
    sizes: Seq<usize>,
    i: int,
    j: int,
)
    requires
        0 <= i < j < sizes.len(),
        app_space_size >= 0,
        forall|k: int| 0 <= k < sizes.len() ==> #[trigger] sizes[k] <= app_space_size,
    ensures
        run_address(run_start, app_space_size, i) + sizes[i] <= run_address(
            run_start,
            app_space_size,
            j,
        ),
{
    assert((i + 1) * app_space_size <= j * app_space_size) by (nonlinear_arith)
        requires
            i + 1 <= j,
            app_space_size >= 0,
    ;
    assert((i + 1) * app_space_size == i * app_space_size + app_space_size) by (nonlinear_arith);
}

/// The number of entries of the system-call table.
pub const ABI_TABLE_LEN: usize = 16;

/// The table that the loaded applications reach the kernel's services
/// through: entry `num` holds the address of the handler of call `num`.
pub struct AbiTable {
    entries: [usize; 16],
}

impl AbiTable {
    /// The handler address of each call.
    pub closed spec fn spec_entries(&self) -> Seq<usize> {
        self.entries@
    }

    /// A table with no handler registered: every entry is zero.
    pub fn new() -> (t: AbiTable)
        ensures
            t.spec_entries() == Seq::new(ABI_TABLE_LEN as nat, |i: int| 0usize),
            t.spec_entries().len() == ABI_TABLE_LEN,
    {
        let t = AbiTable { entries: [0usize; 16] };
        assert(t.spec_entries() =~= Seq::new(ABI_TABLE_LEN as nat, |i: int| 0usize));
        t
    }

    /// Registers `handle` as the handler of call `num`.
    pub fn register_abi(&mut self, num: usize, handle: usize)
        requires
            num < ABI_TABLE_LEN,
        ensures
            final(self).spec_entries() == old(self).spec_entries().update(num as int, handle),
            final(self).spec_entries().len() == ABI_TABLE_LEN,
    {
        self.entries[num] = handle;
        assert(self.spec_entries() =~= old(self).spec_entries().update(num as int, handle));
    }

    /// The handler address of call `num`.
    pub fn entry(&self, num: usize) -> (h: usize)
        requires
            num < ABI_TABLE_LEN,
        ensures
            h == self.spec_entries()[num as int],
            self.spec_entries().len() == ABI_TABLE_LEN,
    {
        self.entries[num]
    }

    /// Every table has one entry per call number.
    pub proof fn lemma_entries_len(&self)
        ensures
            self.spec_entries().len() == ABI_TABLE_LEN,
    {
    }
}

/// A leaf entry of an Sv39 page table: the physical page number `ppn`
/// above the ten flag bits `flags`.
pub fn sv39_pte(ppn: u64, flags: u64) -> (pte: u64)
    requires
        ppn < 0x1000_0000_0000,
        flags < 1024,
    ensures
        pte == ppn * 1024 + flags,
{
    assert((ppn << 10u64) | flags == ppn * 1024 + flags) by (bit_vector)
        requires
            ppn < 0x1000_0000_0000u64,
            flags < 1024u64,
    ;
    (ppn << 10u64) | flags
}

/// The flags of the 1 GiB blocks mapped for the applications: valid,
/// readable, writable, executable, global, accessed and dirty.
pub const APP_BLOCK_FLAGS: u64 = 0xef;

/// The entries written into the root page table for the applications, as
/// (index, entry) pairs: physical 0x8000_0000.. is mapped at 0x8000_0000,
/// at 0xffff_ffc0_8000_0000 and at 0x4000_0000, and physical 0.. at 0.
pub fn app_page_table_entries() -> (entries: Vec<(usize, u64)>)
    ensures
        entries@ == seq![
            (2usize, (0x80000 * 1024 + APP_BLOCK_FLAGS) as u64),
            (0x102usize, (0x80000 * 1024 + APP_BLOCK_FLAGS) as u64),
            (0usize, APP_BLOCK_FLAGS),
            (1usize, (0x80000 * 1024 + APP_BLOCK_FLAGS) as u64),
        ],
{
    let high = sv39_pte(0x80000, APP_BLOCK_FLAGS);
    let low = sv39_pte(0, APP_BLOCK_FLAGS);
    let mut entries: Vec<(usize, u64)> = Vec::new();
    entries.push((2, high));
    entries.push((0x102, high));
    entries.push((0, low));
    entries.push((1, high));
    entries
}

/// The physical page number of the root page table at virtual address
/// `pt_vaddr`, in a kernel that maps physical memory at `phys_virt_offset`.
pub fn page_table_root_ppn(pt_vaddr: usize, phys_virt_offset: usize) -> (ppn: usize)
    requires
        pt_vaddr >= phys_virt_offset,
    ensures
        ppn == (pt_vaddr - phys_virt_offset) / 4096,
{
    let paddr = pt_vaddr - phys_virt_offset;
    assert(paddr >> 12usize == paddr / 4096) by (bit_vector);
    paddr >> 12
}

} // verus!
