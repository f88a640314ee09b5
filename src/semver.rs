use vstd::prelude::*;
use crate::text::{
    all_digits, digit_char, digit_value, digits_value, is_digit, lemma_digits_value_prefix_le,
    chars_of, decimal, lemma_decimal_no_char, lemma_parse_decimal, lemma_split_append,
    lemma_split_no_sep, parse_u32, parse_u32_spec, push_char, push_decimal, split_chars, split_on,
};

verus! {

/// A version of up to four numeric parts; only `major` is required.
#[derive(Debug, Clone, Copy, PartialEq, Eq, Structural, Hash)]
pub struct SemVer {
    pub major: u32,
    pub minor: Option<u32>,
    pub patch: Option<u32>,
    pub build_number: Option<u32>,
}

/// Order of two optional parts: an absent part is below every present one.
pub open spec fn cmp_opt(a: Option<u32>, b: Option<u32>) -> int {
    match (a, b) {
        (None, None) => 0,
        (None, Some(_)) => -1,
        (Some(_), None) => 1,
        (Some(x), Some(y)) => if x < y {
            -1
        } else if x > y {
            1
        } else {
            0
        },
    }
}

/// How `a` compares with `b`: negative, zero or positive.  Major, minor,
/// patch and build are compared in turn, an absent part below a present one.
pub open spec fn compare(a: SemVer, b: SemVer) -> int {
    if a.major < b.major {
        -1
    } else if a.major > b.major {
        1
    } else if cmp_opt(a.minor, b.minor) != 0 {
        cmp_opt(a.minor, b.minor)
    } else if cmp_opt(a.patch, b.patch) != 0 {
        cmp_opt(a.patch, b.patch)
    } else {
        cmp_opt(a.build_number, b.build_number)
    }
}

pub open spec fn ordering_of(c: int) -> core::cmp::Ordering {
    if c < 0 {
        core::cmp::Ordering::Less
    } else if c > 0 {
        core::cmp::Ordering::Greater
    } else {
        core::cmp::Ordering::Equal
    }
}

/// `v` lies in the half-open interval `[start, end)`.
pub open spec fn in_range(v: SemVer, start: SemVer, end: SemVer) -> bool {
    compare(v, start) >= 0 && compare(v, end) < 0
}

/// Each present part has all the parts before it: the shape that the text
/// form can express.
pub open spec fn is_normalized(v: SemVer) -> bool {
    (v.minor is None ==> v.patch is None) && (v.patch is None ==> v.build_number is None)
}

/// The text form: `major[.minor[.patch[.bbuild]]]`.
pub open spec fn text_of(v: SemVer) -> Seq<char> {
    let a = decimal(v.major as nat);
    let b = match v.minor {
        Some(m) => a.push('.') + decimal(m as nat),
        None => a,
    };
    let c = match v.patch {
        Some(p) => b.push('.') + decimal(p as nat),
        None => b,
    };
    match v.build_number {
        Some(x) => c.push('.') + seq!['b'] + decimal(x as nat),
        None => c,
    }
}

pub open spec fn part(parts: Seq<Seq<char>>, i: int) -> Option<u32> {
    if i < parts.len() {
        parse_u32_spec(parts[i])
    } else {
        None
    }
}

pub open spec fn build_part(parts: Seq<Seq<char>>, i: int) -> Option<u32> {
    if i < parts.len() {
        if parts[i].len() > 0 && parts[i][0] == 'b' {
            parse_u32_spec(parts[i].drop_first())
        } else {
            parse_u32_spec(parts[i])
        }
    } else {
        None
    }
}

/// Reading a version: the text is split at every `.`; the first piece must
/// be a number, the next three are read where they are numbers (the fourth
/// may carry a `b` in front) and are absent otherwise.
pub open spec fn parse_spec(s: Seq<char>) -> Option<SemVer> {
    let parts = split_on(s, '.');
    match parse_u32_spec(parts[0]) {
        Some(major) => Some(
            SemVer {
                major,
                minor: part(parts, 1),
                patch: part(parts, 2),
                build_number: build_part(parts, 3),
            },
        ),
        None => None,
    }
}

/// The part that `one_up` raises can be raised by one without overflow.
pub open spec fn can_go_up(v: SemVer) -> bool {
    if v.patch is None {
        v.minor != Some(u32::MAX)
    } else if v.build_number is None {
        v.patch != Some(u32::MAX)
    } else {
        v.build_number != Some(u32::MAX)
    }
}

pub open spec fn bump(o: Option<u32>) -> Option<u32> {
    match o {
        Some(x) => Some((x + 1) as u32),
        None => None,
    }
}

/// The exclusive upper bound of the versions compatible with `v`: the next
/// minor version where `v` stops at minor, the next patch where it stops at
/// patch, the next build otherwise.
pub open spec fn one_up(v: SemVer) -> SemVer {
    if v.patch is None {
        SemVer { major: v.major, minor: bump(v.minor), patch: None, build_number: None }
    } else if v.build_number is None {
        SemVer { major: v.major, minor: v.minor, patch: bump(v.patch), build_number: None }
    } else {
        SemVer {
            major: v.major,
            minor: v.minor,
            patch: v.patch,
            build_number: bump(v.build_number),
        }
    }
}

/// `w` agrees with `v` on every part that `v` fixes: minor always, patch when
/// `v` has one, and the build when `v` has both.
pub open spec fn matches_floor(w: SemVer, v: SemVer) -> bool {
    &&& w.major == v.major
    &&& w.minor == v.minor
    &&& v.patch is Some ==> w.patch == v.patch
    &&& (v.patch is Some && v.build_number is Some) ==> w.build_number == v.build_number
}

/// A copy of `v` without its first character.
fn drop_first_char(v: &Vec<char>) -> (r: Vec<char>)
    requires
        v@.len() > 0,
    ensures
        r@ == v@.drop_first(),
{
    let mut r: Vec<char> = Vec::new();
    let mut i: usize = 1;
    while i < v.len()
        invariant
            1 <= i <= v.len(),
            r@ == v@.subrange(1, i as int),
        decreases v.len() - i,
    {
        r.push(v[i]);
        i = i + 1;
        assert(r@ =~= v@.subrange(1, i as int));
    }
    assert(r@ =~= v@.drop_first());
    r
}

impl SemVer {
    /// Reads a version such as `1.2`, `1.2.3` or `1.2.3.b4`.
    pub fn parse_from_string(s: &str) -> (r: Option<SemVer>)
        ensures
            r == parse_spec(s@),
    {
        let cs = chars_of(s);
        let parts = split_chars(&cs, '.');
        proof {
            crate::text::lemma_split_nonempty(s@, '.');
        }
        let major = parse_u32(&parts[0]);
        match major {
            None => None,
            Some(major) => {
                let minor = if parts.len() > 1 {
                    parse_u32(&parts[1])
                } else {
                    None
                };
                let patch = if parts.len() > 2 {
                    parse_u32(&parts[2])
                } else {
                    None
                };
                let build_number = if parts.len() > 3 {
                    if parts[3].len() > 0 && parts[3][0] == 'b' {
                        let rest = drop_first_char(&parts[3]);
                        parse_u32(&rest)
                    } else {
                        parse_u32(&parts[3])
                    }
                } else {
                    None
                };
                Some(SemVer { major, minor, patch, build_number })
            },
        }
    }

    /// The text form of the version.
    pub fn to_string(&self) -> (r: String)
        ensures
            r@ == text_of(*self),
    {
        let mut s = String::new();
        push_decimal(&mut s, self.major);
        if let Some(m) = self.minor {
            push_char(&mut s, '.');
            push_decimal(&mut s, m);
        }
        if let Some(p) = self.patch {
            push_char(&mut s, '.');
            push_decimal(&mut s, p);
        }
        if let Some(b) = self.build_number {
            push_char(&mut s, '.');
            push_char(&mut s, 'b');
            push_decimal(&mut s, b);
        }
        assert(s@ =~= text_of(*self));
        s
    }

    /// How `self` compares with `other`.
    pub fn compare_to(&self, other: &SemVer) -> (r: core::cmp::Ordering)
        ensures
            r == ordering_of(compare(*self, *other)),
    {
        if self.major < other.major {
            return core::cmp::Ordering::Less;
        }
        if self.major > other.major {
            return core::cmp::Ordering::Greater;
        }
        let m = cmp_opt_exec(self.minor, other.minor);
        if m != 0 {
            return if m < 0 {
                core::cmp::Ordering::Less
            } else {
                core::cmp::Ordering::Greater
            };
        }
        let p = cmp_opt_exec(self.patch, other.patch);
        if p != 0 {
            return if p < 0 {
                core::cmp::Ordering::Less
            } else {
                core::cmp::Ordering::Greater
            };
        }
        let b = cmp_opt_exec(self.build_number, other.build_number);
        if b < 0 {
            core::cmp::Ordering::Less
        } else if b > 0 {
            core::cmp::Ordering::Greater
        } else {
            core::cmp::Ordering::Equal
        }
    }

    /// `self` lies in `[start, end)`.
    pub fn is_within(&self, start: &SemVer, end: &SemVer) -> (r: bool)
        ensures
            r == in_range(*self, *start, *end),
    {
        let lo = self.compare_to(start);
        let hi = self.compare_to(end);
        !matches!(lo, core::cmp::Ordering::Less) && matches!(hi, core::cmp::Ordering::Less)
    }

    pub fn upper_minor(&self) -> (r: SemVer)
        requires
            self.minor != Some(u32::MAX),
        ensures
            r == (SemVer { major: self.major, minor: bump(self.minor), patch: None, build_number: None }),
    {
        SemVer {
            major: self.major,
            minor: match self.minor {
                Some(m) => Some(m + 1),
                None => None,
            },
            patch: None,
            build_number: None,
        }
    }

    pub fn upper_patch(&self) -> (r: SemVer)
        requires
            self.patch != Some(u32::MAX),
        ensures
            r == (SemVer {
                major: self.major,
                minor: self.minor,
                patch: bump(self.patch),
                build_number: None,
            }),
    {
        SemVer {
            major: self.major,
            minor: self.minor,
            patch: match self.patch {
                Some(p) => Some(p + 1),
                None => None,
            },
            build_number: None,
        }
    }

    pub fn upper_build(&self) -> (r: SemVer)
        requires
            self.build_number != Some(u32::MAX),
        ensures
            r == (SemVer {
                major: self.major,
                minor: self.minor,
                patch: self.patch,
                build_number: bump(self.build_number),
            }),
    {
        SemVer {
            major: self.major,
            minor: self.minor,
            patch: self.patch,
            build_number: match self.build_number {
                Some(b) => Some(b + 1),
                None => None,
            },
        }
    }

    /// The part that `get_one_up` raises is below its maximum.
    pub fn has_one_up(&self) -> (r: bool)
        ensures
            r == can_go_up(*self),
    {
        if self.patch.is_none() {
            self.minor != Some(u32::MAX)
        } else if self.build_number.is_none() {
            self.patch != Some(u32::MAX)
        } else {
            self.build_number != Some(u32::MAX)
        }
    }

    /// The exclusive upper bound of the versions compatible with `self`.
    pub fn get_one_up(&self) -> (r: SemVer)
        requires
            can_go_up(*self),
        ensures
            r == one_up(*self),
    {
        if self.patch.is_none() {
            self.upper_minor()
        } else if self.build_number.is_none() {
            self.upper_patch()
        } else {
            self.upper_build()
        }
    }

    /// Same major version, and a minor version at least the requested one.
    pub fn satisfies_requested_version(&self, requested: &SemVer) -> (r: bool)
        ensures
            r == (self.major == requested.major && cmp_opt(self.minor, requested.minor) >= 0),
    {
        if self.major != requested.major {
            return false;
        }
        cmp_opt_exec(self.minor, requested.minor) >= 0
    }
}

impl PartialOrd for SemVer {
    fn partial_cmp(&self, other: &SemVer) -> (r: Option<core::cmp::Ordering>)
        ensures
            r == Some(ordering_of(compare(*self, *other))),
    {
        Some(self.compare_to(other))
    }
}

impl vstd::std_specs::cmp::PartialOrdSpecImpl for SemVer {
    open spec fn obeys_partial_cmp_spec() -> bool {
        true
    }

    open spec fn partial_cmp_spec(&self, other: &SemVer) -> Option<core::cmp::Ordering> {
        Some(ordering_of(compare(*self, *other)))
    }
}

fn cmp_opt_exec(a: Option<u32>, b: Option<u32>) -> (r: i8)
    ensures
        r as int == cmp_opt(a, b),
{
    match (a, b) {
        (None, None) => 0,
        (None, Some(_)) => -1,
        (Some(_), None) => 1,
        (Some(x), Some(y)) => if x < y {
            -1
        } else if x > y {
            1
        } else {
            0
        },
    }
}

/// Reading the text form of a version gives the version back; so the text
/// form of a version read from such a text is that text again.
pub proof fn lemma_parse_round_trip(v: SemVer)
    requires
        is_normalized(v),
    ensures
        parse_spec(text_of(v)) == Some(v),
        text_of(parse_spec(text_of(v))->0) == text_of(v),
{
    let a = decimal(v.major as nat);
    lemma_decimal_no_char(v.major as nat, '.');
    lemma_split_no_sep(a, '.');
    lemma_parse_decimal(v.major);
    let b = match v.minor {
        Some(m) => a.push('.') + decimal(m as nat),
        None => a,
    };
    if let Some(m) = v.minor {
        lemma_decimal_no_char(m as nat, '.');
        lemma_split_append(a, '.', decimal(m as nat));
        lemma_parse_decimal(m);
    }
    let c = match v.patch {
        Some(p) => b.push('.') + decimal(p as nat),
        None => b,
    };
    if let Some(p) = v.patch {
        lemma_decimal_no_char(p as nat, '.');
        lemma_split_append(b, '.', decimal(p as nat));
        lemma_parse_decimal(p);
    }
    if let Some(x) = v.build_number {
        let t = seq!['b'] + decimal(x as nat);
        lemma_decimal_no_char(x as nat, '.');
        assert(!t.contains('.')) by {
            if t.contains('.') {
                let i = choose|i: int| 0 <= i < t.len() && t[i] == '.';
                if i > 0 {
                    assert(t[i] == decimal(x as nat)[i - 1]);
                }
            }
        }
        lemma_split_append(c, '.', t);
        lemma_parse_decimal(x);
        assert(t.drop_first() =~= decimal(x as nat));
        assert(c.push('.') + seq!['b'] + decimal(x as nat) =~= c.push('.') + t);
    }
}

/// A number written without sign or leading zeros, that fits in 32 bits.
pub open spec fn canonical_number(d: Seq<char>) -> bool {
    &&& d.len() > 0
    &&& all_digits(d)
    &&& (d.len() == 1 || d[0] != '0')
    &&& digits_value(d) <= u32::MAX
}

/// The number a canonical digit string denotes.
pub open spec fn number_of(d: Seq<char>) -> u32 {
    digits_value(d) as u32
}

/// A version text: canonical numbers joined by `.`, each part present only
/// when the ones before it are; the fourth part may carry a `b` in front.
pub open spec fn version_text(
    major: Seq<char>,
    minor: Option<Seq<char>>,
    patch: Option<Seq<char>>,
    build: Option<Seq<char>>,
    with_b: bool,
) -> Seq<char> {
    let b = match minor {
        Some(m) => major.push('.') + m,
        None => major,
    };
    let c = match patch {
        Some(p) => b.push('.') + p,
        None => b,
    };
    match build {
        Some(x) => c.push('.') + if with_b {
            seq!['b'] + x
        } else {
            x
        },
        None => c,
    }
}

pub open spec fn well_formed_parts(
    major: Seq<char>,
    minor: Option<Seq<char>>,
    patch: Option<Seq<char>>,
    build: Option<Seq<char>>,
) -> bool {
    &&& canonical_number(major)
    &&& minor matches Some(m) ==> canonical_number(m)
    &&& patch matches Some(p) ==> canonical_number(p) && minor is Some
    &&& build matches Some(x) ==> canonical_number(x) && patch is Some
}

pub proof fn lemma_digit_round_trip(c: char)
    requires
        is_digit(c),
    ensures
        digit_char(digit_value(c)) == c,
        digit_value(c) < 10,
{
}

/// A canonical number is the decimal form of its value, holds no `.`, and
/// reads back as that value.
pub proof fn lemma_canonical_number(d: Seq<char>)
    requires
        canonical_number(d),
    ensures
        decimal(digits_value(d)) == d,
        !d.contains('.'),
        parse_u32_spec(d) == Some(number_of(d)),
    decreases d.len(),
{
    if d.contains('.') {
        let i = choose|i: int| 0 <= i < d.len() && d[i] == '.';
        assert(is_digit(d[i]));
    }
    assert(is_digit(d[0]));
    if d.len() == 1 {
        lemma_digit_round_trip(d[0]);
        assert(d.drop_last() =~= Seq::<char>::empty());
        assert(d.last() == d[0]);
        assert(digits_value(d.drop_last()) == 0);
        assert(digits_value(d) == digit_value(d[0]));
        assert(decimal(digit_value(d[0])) == seq![digit_char(digit_value(d[0]))]);
        assert(decimal(digits_value(d)) =~= d);
    } else {
        let e = d.drop_last();
        assert(all_digits(e)) by {
            assert forall|i: int| 0 <= i < e.len() implies is_digit(#[trigger] e[i]) by {
                assert(e[i] == d[i]);
            }
        }
        lemma_digits_value_prefix_le(d, e.len() as int);
        assert(d.subrange(0, e.len() as int) =~= e);
        assert(e[0] == d[0]);
        lemma_canonical_number(e);
        lemma_digits_value_prefix_le(e, 1);
        let f = e.subrange(0, 1);
        assert(f.drop_last() =~= Seq::<char>::empty());
        assert(f.last() == e[0]);
        assert(digits_value(f.drop_last()) == 0);
        assert(digits_value(f) == digit_value(e[0]));
        assert(digits_value(e) >= 1);
        assert(is_digit(d.last())) by {
            assert(d.last() == d[d.len() - 1]);
        }
        lemma_digit_round_trip(d.last());
        let n = digits_value(d);
        assert(n == digits_value(e) * 10 + digit_value(d.last()));
        assert(n >= 10);
        assert(n / 10 == digits_value(e));
        assert(n % 10 == digit_value(d.last()));
        assert(decimal(n) =~= e.push(d.last()));
        assert(e.push(d.last()) =~= d);
    }
}

/// Reading a version text and writing the version back gives the same text,
/// with a `b` in front of a build number that had none.
pub proof fn lemma_text_round_trip(
    major: Seq<char>,
    minor: Option<Seq<char>>,
    patch: Option<Seq<char>>,
    build: Option<Seq<char>>,
    with_b: bool,
)
    requires
        well_formed_parts(major, minor, patch, build),
    ensures
        parse_spec(version_text(major, minor, patch, build, with_b)) is Some,
        text_of(parse_spec(version_text(major, minor, patch, build, with_b))->0) == version_text(
            major,
            minor,
            patch,
            build,
            true,
        ),
{
    lemma_canonical_number(major);
    lemma_split_no_sep(major, '.');
    let b = match minor {
        Some(m) => major.push('.') + m,
        None => major,
    };
    if let Some(m) = minor {
        lemma_canonical_number(m);
        lemma_split_append(major, '.', m);
    }
    let c = match patch {
        Some(p) => b.push('.') + p,
        None => b,
    };
    if let Some(p) = patch {
        lemma_canonical_number(p);
        lemma_split_append(b, '.', p);
    }
    let v = SemVer {
        major: number_of(major),
        minor: match minor {
            Some(m) => Some(number_of(m)),
            None => None,
        },
        patch: match patch {
            Some(p) => Some(number_of(p)),
            None => None,
        },
        build_number: match build {
            Some(x) => Some(number_of(x)),
            None => None,
        },
    };
    if let Some(x) = build {
        lemma_canonical_number(x);
        let t = if with_b {
            seq!['b'] + x
        } else {
            x
        };
        assert(!t.contains('.')) by {
            if t.contains('.') {
                let i = choose|i: int| 0 <= i < t.len() && t[i] == '.';
                if with_b && i > 0 {
                    assert(t[i] == x[i - 1]);
                }
            }
        }
        lemma_split_append(c, '.', t);
        if with_b {
            assert(t.drop_first() =~= x);
        } else {
            assert(is_digit(x[0]));
        }
        let tb = seq!['b'] + x;
        assert(c.push('.') + seq!['b'] + x =~= c.push('.') + tb);
    }
    assert(parse_spec(version_text(major, minor, patch, build, with_b)) == Some(v));
}

/// For a version with a minor part and the shape of a text form,
/// `[v, one_up(v))` holds exactly the versions that agree with `v` on every
/// part that `v` fixes.
pub proof fn lemma_one_up_range(v: SemVer, w: SemVer)
    requires
        v.minor is Some,
        is_normalized(v),
        can_go_up(v),
    ensures
        in_range(w, v, one_up(v)) <==> matches_floor(w, v),
{
    let u = one_up(v);
    if v.patch is None {
        assert(u.minor == Some((v.minor->0 + 1) as u32));
        if w.major == v.major && w.minor == v.minor {
            assert(compare(w, v) >= 0);
            assert(compare(w, u) < 0);
        }
    } else if v.build_number is None {
        assert(u.patch == Some((v.patch->0 + 1) as u32));
        if matches_floor(w, v) {
            assert(compare(w, v) >= 0);
            assert(compare(w, u) < 0);
        }
    } else {
        assert(u.build_number == Some((v.build_number->0 + 1) as u32));
        if matches_floor(w, v) {
            assert(compare(w, v) >= 0);
            assert(compare(w, u) < 0);
        }
    }
}

/// The bound of a compatible range is strictly above every version that
/// agrees with `v` on its fixed parts.
pub proof fn lemma_one_up_above_floor(v: SemVer, w: SemVer)
    requires
        v.minor is Some,
        is_normalized(v),
        can_go_up(v),
        matches_floor(w, v),
    ensures
        compare(one_up(v), w) > 0,
{
    lemma_one_up_range(v, w);
    lemma_compare_antisymmetric(w, one_up(v));
}

/// A version at most `b`, where `b` is below `c`, is at most `c`.
pub proof fn lemma_compare_le_lt(a: SemVer, b: SemVer, c: SemVer)
    requires
        compare(a, b) <= 0,
        compare(b, c) < 0,
    ensures
        compare(a, c) <= 0,
{
}

/// Two versions compare equal exactly when all their parts are equal.
pub proof fn lemma_compare_zero_iff_equal(a: SemVer, b: SemVer)
    ensures
        compare(a, b) == 0 <==> a == b,
{
}

/// The order is transitive.
pub proof fn lemma_compare_transitive(a: SemVer, b: SemVer, c: SemVer)
    requires
        compare(a, b) <= 0,
        compare(b, c) <= 0,
    ensures
        compare(a, c) <= 0,
        compare(a, b) < 0 || compare(b, c) < 0 ==> compare(a, c) < 0,
{
}

/// Swapping the operands of a comparison flips its sign.
pub proof fn lemma_compare_antisymmetric(a: SemVer, b: SemVer)
    ensures
        compare(a, b) == -compare(b, a),
{
}

} // verus!
