//! The self-updater's decisions: version comparison, what a release offers
//! for this platform, checksum verification and how often to look for news.
//! Fetching, downloading and installing are performed by the caller.

use vstd::prelude::*;

use crate::text::{
    chars_eq, chars_of, concat, eq_ignore_case, eq_ignore_case_chars, is_ascii_digit, is_digit,
    split, split_chars, split_whitespace, str_is, string_of, views, words,
};

verus! {

// ---------------------------------------------------------------------------
// Versions
// ---------------------------------------------------------------------------

/// The numeric value of a decimal digit.
pub open spec fn digit_value(c: char) -> nat {
    (c as u32 - 0x30) as nat
}

/// The leading decimal digits of `s`.
pub open spec fn leading_digits(s: Seq<char>) -> Seq<char>
    decreases s.len(),
{
    if s.len() > 0 && is_digit(s[0]) {
        seq![s[0]] + leading_digits(s.drop_first())
    } else {
        seq![]
    }
}

/// The number that a string of decimal digits denotes.
pub open spec fn digits_value(d: Seq<char>) -> nat
    decreases d.len(),
{
    if d.len() == 0 {
        0
    } else {
        digits_value(d.drop_last()) * 10 + digit_value(d.last())
    }
}

/// The number a version field stands for: its leading digits read as a
/// `u64`, or 0 when there are none or they do not fit.
pub open spec fn field_value(p: Seq<char>) -> u64 {
    let d = leading_digits(p);
    if d.len() > 0 && digits_value(d) <= u64::MAX {
        digits_value(d) as u64
    } else {
        0
    }
}

/// The numeric fields of a version, one per `.`-separated part.
pub open spec fn version_fields(v: Seq<char>) -> Seq<u64> {
    split(v, "."@).map_values(|p: Seq<char>| field_value(p))
}

/// Lexicographic order on number sequences, a proper prefix coming first.
pub open spec fn lex_less(a: Seq<u64>, b: Seq<u64>) -> bool
    decreases a.len(),
{
    if a.len() == 0 {
        b.len() > 0
    } else if b.len() == 0 {
        false
    } else if a[0] != b[0] {
        a[0] < b[0]
    } else {
        lex_less(a.drop_first(), b.drop_first())
    }
}

/// `candidate` is a newer version than `current`: its fields, compared as
/// numbers, come later.
pub open spec fn is_newer_spec(candidate: Seq<char>, current: Seq<char>) -> bool {
    lex_less(version_fields(current), version_fields(candidate))
}

proof fn lemma_leading_digits(p: Seq<char>, k: int)
    requires
        0 <= k <= p.len(),
        forall|m: int| 0 <= m < k ==> is_digit(p[m]),
        k == p.len() || !is_digit(p[k]),
    ensures
        leading_digits(p) == p.take(k),
    decreases k,
{
    if k > 0 {
        lemma_leading_digits(p.drop_first(), k - 1);
        assert(p.take(k) == seq![p[0]] + p.drop_first().take(k - 1));
    } else {
        assert(p.take(0) == Seq::<char>::empty());
    }
}

fn field_value_exec(p: &Vec<char>) -> (r: u64)
    ensures
        r == field_value(p@),
{
    let mut k: usize = 0;
    let mut val: u64 = 0;
    let mut over = false;
    while k < p.len() && is_ascii_digit(p[k])
        invariant
            k <= p.len(),
            forall|m: int| 0 <= m < k ==> is_digit(p@[m]),
            over ==> digits_value(p@.take(k as int)) > u64::MAX,
            !over ==> val == digits_value(p@.take(k as int)),
        decreases p.len() - k,
    {
        let d = (p[k] as u32 - 0x30) as u64;
        assert(p@.take(k + 1).drop_last() == p@.take(k as int));
        assert(digits_value(p@.take(k + 1)) == digits_value(p@.take(k as int)) * 10 + d);
        if !over {
            match val.checked_mul(10) {
                Some(m) => match m.checked_add(d) {
                    Some(v) => {
                        val = v;
                    },
                    None => {
                        over = true;
                    },
                },
                None => {
                    over = true;
                },
            }
        }
        k = k + 1;
    }
    proof {
        lemma_leading_digits(p@, k as int);
    }
    if k == 0 || over {
        0
    } else {
        val
    }
}

fn version_fields_exec(v: &str) -> (r: Vec<u64>)
    ensures
        r@ == version_fields(v@),
{
    proof {
        reveal_strlit(".");
    }
    let chars = chars_of(v);
    let dot = chars_of(".");
    let parts = split_chars(&chars, &dot);
    let mut out: Vec<u64> = Vec::new();
    let mut i: usize = 0;
    while i < parts.len()
        invariant
            i <= parts.len(),
            views(parts@) == split(v@, "."@),
            out@ == views(parts@).take(i as int).map_values(|p: Seq<char>| field_value(p)),
        decreases parts.len() - i,
    {
        let f = field_value_exec(&parts[i]);
        assert(views(parts@)[i as int] == parts@[i as int]@);
        out.push(f);
        assert(views(parts@).take(i + 1) == views(parts@).take(i as int).push(parts@[i as int]@));
        i = i + 1;
    }
    assert(views(parts@).take(i as int) == views(parts@));
    out
}

fn lex_less_exec(a: &Vec<u64>, b: &Vec<u64>) -> (r: bool)
    ensures
        r == lex_less(a@, b@),
{
    let mut i: usize = 0;
    assert(a@.skip(0) == a@ && b@.skip(0) == b@);
    loop
        invariant
            i <= a.len(),
            i <= b.len(),
            lex_less(a@, b@) == lex_less(a@.skip(i as int), b@.skip(i as int)),
        decreases a.len() - i,
    {
        if i == a.len() {
            return i < b.len();
        }
        if i == b.len() {
            return false;
        }
        if a[i] != b[i] {
            return a[i] < b[i];
        }
        assert(a@.skip(i as int).drop_first() == a@.skip(i + 1));
        assert(b@.skip(i as int).drop_first() == b@.skip(i + 1));
        i = i + 1;
    }
}

/// Semver-style comparison on the numeric fields (major.minor.patch...),
/// never lexicographic on the text.
pub fn is_newer(candidate: &str, current: &str) -> (r: bool)
    ensures
        r == is_newer_spec(candidate@, current@),
{
    let cand = version_fields_exec(candidate);
    let cur = version_fields_exec(current);
    lex_less_exec(&cur, &cand)
}

proof fn lemma_lex_irreflexive(a: Seq<u64>)
    ensures
        !lex_less(a, a),
    decreases a.len(),
{
    if a.len() > 0 {
        lemma_lex_irreflexive(a.drop_first());
    }
}

proof fn lemma_lex_asymmetric(a: Seq<u64>, b: Seq<u64>)
    ensures
        lex_less(a, b) ==> !lex_less(b, a),
    decreases a.len(),
{
    if a.len() > 0 && b.len() > 0 && a[0] == b[0] {
        lemma_lex_asymmetric(a.drop_first(), b.drop_first());
    }
}

proof fn lemma_lex_transitive(a: Seq<u64>, b: Seq<u64>, c: Seq<u64>)
    ensures
        lex_less(a, b) && lex_less(b, c) ==> lex_less(a, c),
    decreases a.len(),
{
    if a.len() > 0 && b.len() > 0 && c.len() > 0 {
        lemma_lex_transitive(a.drop_first(), b.drop_first(), c.drop_first());
    }
}

/// No version is newer than itself.
pub proof fn law_is_newer_irreflexive(v: Seq<char>)
    ensures
        !is_newer_spec(v, v),
{
    lemma_lex_irreflexive(version_fields(v));
}

/// Of two versions, at most one is newer than the other.
pub proof fn law_is_newer_asymmetric(a: Seq<char>, b: Seq<char>)
    ensures
        is_newer_spec(a, b) ==> !is_newer_spec(b, a),
{
    lemma_lex_asymmetric(version_fields(b), version_fields(a));
}

/// Newer than something newer is newer.
pub proof fn law_is_newer_transitive(a: Seq<char>, b: Seq<char>, c: Seq<char>)
    ensures
        is_newer_spec(a, b) && is_newer_spec(b, c) ==> is_newer_spec(a, c),
{
    lemma_lex_transitive(version_fields(c), version_fields(b), version_fields(a));
}

// ---------------------------------------------------------------------------
// Releases
// ---------------------------------------------------------------------------

/// `s` without its leading `v`s (`trim_start_matches('v')`).
pub open spec fn strip_leading_v(s: Seq<char>) -> Seq<char>
    decreases s.len(),
{
    if s.len() > 0 && s[0] == 'v' {
        strip_leading_v(s.drop_first())
    } else {
        s
    }
}

/// The version a release tag names: the tag without its leading `v`s.
pub fn tag_version(tag: &str) -> (r: String)
    ensures
        r@ == strip_leading_v(tag@),
{
    let t = chars_of(tag);
    let mut k: usize = 0;
    assert(t@.skip(0) == t@);
    while k < t.len() && t[k] == 'v'
        invariant
            k <= t.len(),
            strip_leading_v(t@.skip(k as int)) == strip_leading_v(t@),
        decreases t.len() - k,
    {
        assert(t@.skip(k as int).drop_first() == t@.skip(k + 1));
        k = k + 1;
    }
    let rest = crate::text::slice_of(&t, k, t.len());
    assert(rest@ == t@.skip(k as int));
    string_of(&rest)
}

/// The version of a release tag, when it is newer than `current`.
pub open spec fn newer_release_spec(tag: Seq<char>, current: Seq<char>) -> Option<Seq<char>> {
    if is_newer_spec(strip_leading_v(tag), current) {
        Some(strip_leading_v(tag))
    } else {
        None
    }
}

/// The release's version when it is newer than the running one.
pub fn newer_release(tag: &str, current: &str) -> (r: Option<String>)
    ensures
        crate::text::opt_view(r) == newer_release_spec(tag@, current@),
{
    let latest = tag_version(tag);
    if is_newer(latest.as_str(), current) {
        Some(latest)
    } else {
        None
    }
}

/// The name of this platform's release asset: `bang-<os>-<arch>`, with macOS
/// called `darwin`.
pub open spec fn platform_asset_spec(os: Seq<char>, arch: Seq<char>) -> Seq<char> {
    "bang-"@ + (if os == "macos"@ {
        "darwin"@
    } else {
        os
    }) + "-"@ + arch
}

/// The release asset name for an operating system and architecture (as in
/// `std::env::consts`).
pub fn platform_asset(os: &str, arch: &str) -> (r: String)
    ensures
        r@ == platform_asset_spec(os@, arch@),
{
    let prefix = chars_of("bang-");
    let os_name = if str_is(os, "macos") {
        chars_of("darwin")
    } else {
        chars_of(os)
    };
    let dash = chars_of("-");
    let a = chars_of(arch);
    string_of(&concat(&concat(&concat(&prefix, &os_name), &dash), &a))
}

/// A downloadable file of a release.
pub struct Asset {
    pub name: String,
    pub browser_download_url: String,
}

/// A published release.
pub struct Release {
    pub tag_name: String,
    pub assets: Vec<Asset>,
}

pub open spec fn asset_names(assets: Seq<Asset>) -> Seq<Seq<char>> {
    assets.map_values(|a: Asset| a.name@)
}

/// `i` is the first position of `name` in `names`.
pub open spec fn first_named_at(names: Seq<Seq<char>>, name: Seq<char>, i: int) -> bool {
    0 <= i < names.len() && names[i] == name && forall|j: int| 0 <= j < i ==> names[j] != name
}

/// The first position of `name` in `names`.
pub open spec fn first_named(names: Seq<Seq<char>>, name: Seq<char>) -> Option<int> {
    if exists|i: int| first_named_at(names, name, i) {
        Some(choose|i: int| first_named_at(names, name, i))
    } else {
        None
    }
}

proof fn lemma_first_named(names: Seq<Seq<char>>, name: Seq<char>, i: int)
    requires
        first_named_at(names, name, i),
    ensures
        first_named(names, name) == Some(i),
{
    let k = choose|k: int| first_named_at(names, name, k);
    if k < i {
        assert(names[k] == name);
    } else if i < k {
        assert(names[i] == name);
    }
}

fn find_asset(assets: &Vec<Asset>, name: &Vec<char>) -> (r: Option<usize>)
    ensures
        match r {
            Some(i) => first_named(asset_names(assets@), name@) == Some(i as int),
            None => first_named(asset_names(assets@), name@) is None,
        },
{
    let mut i: usize = 0;
    while i < assets.len()
        invariant
            i <= assets.len(),
            forall|j: int| 0 <= j < i ==> asset_names(assets@)[j] != name@,
        decreases assets.len() - i,
    {
        let n = chars_of(assets[i].name.as_str());
        assert(asset_names(assets@)[i as int] == assets@[i as int].name@);
        if chars_eq(&n, name) {
            proof {
                lemma_first_named(asset_names(assets@), name@, i as int);
            }
            return Some(i);
        }
        i = i + 1;
    }
    None
}

/// What an update comes to.
pub enum Plan {
    /// The running version is the latest.
    UpToDate,
    /// A newer version exists; only checking was asked for.
    Available { latest: String },
    /// A newer version exists but has no asset for this platform.
    NoAsset { latest: String },
    /// Install `assets[asset]`, verified against `assets[checksum]` when present.
    Install { latest: String, asset: usize, checksum: Option<usize> },
}

#[verifier::ext_equal]
pub enum PlanView {
    UpToDate,
    Available(Seq<char>),
    NoAsset(Seq<char>),
    Install(Seq<char>, int, Option<int>),
}

impl View for Plan {
    type V = PlanView;

    open spec fn view(&self) -> PlanView {
        match self {
            Plan::UpToDate => PlanView::UpToDate,
            Plan::Available { latest } => PlanView::Available(latest@),
            Plan::NoAsset { latest } => PlanView::NoAsset(latest@),
            Plan::Install { latest, asset, checksum } => PlanView::Install(
                latest@,
                *asset as int,
                match checksum {
                    Some(c) => Some(*c as int),
                    None => None,
                },
            ),
        }
    }
}

/// The update decision: nothing to do unless the release is newer; when only
/// checking, stop there; else install this platform's asset (the first of
/// that name), verified by the first asset named like it plus `.sha256`.
pub open spec fn plan_spec(
    tag: Seq<char>,
    names: Seq<Seq<char>>,
    current: Seq<char>,
    check_only: bool,
    asset_name: Seq<char>,
) -> PlanView {
    match newer_release_spec(tag, current) {
        None => PlanView::UpToDate,
        Some(latest) => if check_only {
            PlanView::Available(latest)
        } else {
            match first_named(names, asset_name) {
                None => PlanView::NoAsset(latest),
                Some(i) => PlanView::Install(latest, i, first_named(names, asset_name + ".sha256"@)),
            }
        },
    }
}

/// Decides what `bang update` does with the latest release.
pub fn run(release: &Release, current: &str, check_only: bool, asset_name: &str) -> (p: Plan)
    ensures
        p@ == plan_spec(
            release.tag_name@,
            asset_names(release.assets@),
            current@,
            check_only,
            asset_name@,
        ),
        p matches Plan::Install { asset, checksum, .. } ==> asset < release.assets.len() && (
        checksum matches Some(c) ==> c < release.assets.len()),
{
    let latest = match newer_release(release.tag_name.as_str(), current) {
        None => return Plan::UpToDate,
        Some(l) => l,
    };
    if check_only {
        return Plan::Available { latest };
    }
    let name = chars_of(asset_name);
    let asset = match find_asset(&release.assets, &name) {
        None => return Plan::NoAsset { latest },
        Some(i) => i,
    };
    let suffix = chars_of(".sha256");
    let sum_name = concat(&name, &suffix);
    let checksum = find_asset(&release.assets, &sum_name);
    Plan::Install { latest, asset, checksum }
}

/// An update installs only a release newer than the running version, never
/// when only checking, and only an asset of the requested name, verified by
/// the checksum asset of that name plus `.sha256` when the release has one.
pub proof fn law_install_only_newer(
    tag: Seq<char>,
    names: Seq<Seq<char>>,
    current: Seq<char>,
    check_only: bool,
    asset_name: Seq<char>,
)
    ensures
        plan_spec(tag, names, current, check_only, asset_name) matches PlanView::Install(
            latest,
            i,
            c,
        ) ==> {
            &&& !check_only
            &&& latest == strip_leading_v(tag)
            &&& is_newer_spec(latest, current)
            &&& 0 <= i < names.len() && names[i] == asset_name
            &&& c matches Some(k) ==> 0 <= k < names.len() && names[k] == asset_name + ".sha256"@
        },
        !is_newer_spec(strip_leading_v(tag), current) ==> plan_spec(
            tag,
            names,
            current,
            check_only,
            asset_name,
        ) == PlanView::UpToDate,
{
}

proof fn lemma_first_named_exists(names: Seq<Seq<char>>, name: Seq<char>, i: int)
    requires
        0 <= i < names.len(),
        names[i] == name,
    ensures
        first_named(names, name) is Some,
    decreases i,
{
    if exists|j: int| 0 <= j < i && names[j] == name {
        let j = choose|j: int| 0 <= j < i && names[j] == name;
        lemma_first_named_exists(names, name, j);
    } else {
        assert(first_named_at(names, name, i));
    }
}

proof fn lemma_first_named_none(names: Seq<Seq<char>>, name: Seq<char>)
    ensures
        first_named(names, name) is None <==> forall|k: int|
            0 <= k < names.len() ==> #[trigger] names[k] != name,
{
    if exists|k: int| 0 <= k < names.len() && #[trigger] names[k] == name {
        let k = choose|k: int| 0 <= k < names.len() && #[trigger] names[k] == name;
        lemma_first_named_exists(names, name, k);
    }
}

/// An install takes the first asset of the platform's name, and is verified
/// by the first asset named like it plus `.sha256` wherever that stands in
/// the release; it goes unverified only when the release has no such asset.
/// A newer release is installed (when not only checking) exactly when it has
/// an asset of the platform's name.
pub proof fn law_install_finds_checksum_anywhere(
    tag: Seq<char>,
    names: Seq<Seq<char>>,
    current: Seq<char>,
    check_only: bool,
    asset_name: Seq<char>,
)
    ensures
        plan_spec(tag, names, current, check_only, asset_name) matches PlanView::Install(
            _,
            i,
            c,
        ) ==> {
            &&& forall|j: int| 0 <= j < i ==> names[j] != asset_name
            &&& (c is None <==> forall|k: int|
                0 <= k < names.len() ==> #[trigger] names[k] != asset_name + ".sha256"@)
            &&& c matches Some(k) ==> 0 <= k < names.len() && names[k] == asset_name
                + ".sha256"@ && forall|j: int| 0 <= j < k ==> names[j] != asset_name + ".sha256"@
        },
        is_newer_spec(strip_leading_v(tag), current) && !check_only ==> (plan_spec(
            tag,
            names,
            current,
            check_only,
            asset_name,
        ) is Install <==> exists|k: int| 0 <= k < names.len() && #[trigger] names[k] == asset_name),
{
    lemma_first_named_none(names, asset_name + ".sha256"@);
    lemma_first_named_none(names, asset_name);
}

// ---------------------------------------------------------------------------
// Checksums
// ---------------------------------------------------------------------------

/// The SHA-256 digest of some bytes.
pub uninterp spec fn sha256_digest(data: Seq<u8>) -> Seq<u8>;

/// `sha2::Sha256::digest`: the digest, named by `sha256_digest`, 32 bytes long.
#[verifier::external_body]
fn sha256(data: &[u8]) -> (r: Vec<u8>)
    ensures
        r@ == sha256_digest(data@),
        r@.len() == 32,
{
    <sha2::Sha256 as sha2::Digest>::digest(data).to_vec()
}

/// Lower-case hexadecimal, two digits per byte (`{:x}` on a digest).
pub open spec fn hex_lower(bytes: Seq<u8>) -> Seq<char>
    decreases bytes.len(),
{
    if bytes.len() == 0 {
        seq![]
    } else {
        seq![
            "0123456789abcdef"@[(bytes[0] >> 4) as int],
            "0123456789abcdef"@[(bytes[0] & 0x0f) as int],
        ] + hex_lower(bytes.drop_first())
    }
}

proof fn lemma_hex_lower_push(bytes: Seq<u8>, b: u8)
    ensures
        hex_lower(bytes.push(b)) == hex_lower(bytes) + seq![
            "0123456789abcdef"@[(b >> 4) as int],
            "0123456789abcdef"@[(b & 0x0f) as int],
        ],
    decreases bytes.len(),
{
    let hex = "0123456789abcdef"@;
    let tail = seq![hex[(b >> 4) as int], hex[(b & 0x0f) as int]];
    let s = bytes.push(b);
    if bytes.len() > 0 {
        let head = seq![hex[(bytes[0] >> 4) as int], hex[(bytes[0] & 0x0f) as int]];
        assert(s[0] == bytes[0]);
        assert(s.drop_first() == bytes.drop_first().push(b));
        lemma_hex_lower_push(bytes.drop_first(), b);
        assert(hex_lower(s) == head + hex_lower(s.drop_first()));
        assert(hex_lower(bytes) == head + hex_lower(bytes.drop_first()));
        assert(head + (hex_lower(bytes.drop_first()) + tail) == (head + hex_lower(
            bytes.drop_first(),
        )) + tail);
    } else {
        assert(s[0] == b);
        assert(s.drop_first() == Seq::<u8>::empty());
        assert(hex_lower(s) == tail + hex_lower(s.drop_first()));
        assert(hex_lower(bytes) == Seq::<char>::empty());
        assert(tail + Seq::<char>::empty() == tail);
        assert(Seq::<char>::empty() + tail == tail);
    }
}

/// Lower-case hexadecimal of some bytes.
pub fn to_hex_lower(data: &Vec<u8>) -> (r: Vec<char>)
    ensures
        r@ == hex_lower(data@),
{
    proof {
        reveal_strlit("0123456789abcdef");
    }
    let digits = chars_of("0123456789abcdef");
    let mut out: Vec<char> = Vec::new();
    let mut i: usize = 0;
    while i < data.len()
        invariant
            i <= data.len(),
            digits@ == "0123456789abcdef"@,
            digits@.len() == 16,
            out@ == hex_lower(data@.take(i as int)),
        decreases data.len() - i,
    {
        let b = data[i];
        assert(b >> 4 < 16 && b & 0x0f < 16) by (bit_vector);
        proof {
            lemma_hex_lower_push(data@.take(i as int), b);
            assert(data@.take(i + 1) == data@.take(i as int).push(b));
        }
        out.push(digits[(b >> 4) as usize]);
        out.push(digits[(b & 0x0f) as usize]);
        i = i + 1;
    }
    assert(data@.take(data.len() as int) == data@);
    out
}

/// The SHA-256 digest of `data` in lower-case hexadecimal.
pub fn sha256_hex(data: &[u8]) -> (r: String)
    ensures
        r@ == hex_lower(sha256_digest(data@)),
{
    let digest = sha256(data);
    string_of(&to_hex_lower(&digest))
}

/// The checksum a `.sha256` file states: its first word, or nothing.
pub open spec fn expected_checksum(sum_file: Seq<char>) -> Seq<char> {
    let ws = words(sum_file);
    if ws.len() > 0 {
        ws[0]
    } else {
        seq![]
    }
}

/// A downloaded binary whose digest is not the one its checksum file states.
pub struct Mismatch {
    pub expected: String,
    pub actual: String,
}

/// Compares the checksum a `.sha256` file states with an actual digest in
/// hexadecimal, ignoring ASCII case.
pub fn checksum_verdict(sum_file: &str, actual_hex: &str) -> (r: Result<(), Mismatch>)
    ensures
        match r {
            Ok(()) => eq_ignore_case(expected_checksum(sum_file@), actual_hex@),
            Err(m) => !eq_ignore_case(expected_checksum(sum_file@), actual_hex@) && m.expected@
                == expected_checksum(sum_file@) && m.actual@ == actual_hex@,
        },
{
    let f = chars_of(sum_file);
    let ws = split_whitespace(&f);
    let expected: Vec<char> = if ws.len() > 0 {
        assert(ws@[0]@ == words(f@)[0]);
        ws[0].clone()
    } else {
        Vec::new()
    };
    let actual = chars_of(actual_hex);
    if eq_ignore_case_chars(&expected, &actual) {
        Ok(())
    } else {
        Err(Mismatch { expected: string_of(&expected), actual: actual_hex.to_owned() })
    }
}

/// Checks a downloaded binary against the contents of its `.sha256` file.
pub fn verify_checksum(sum_file: &str, binary: &[u8]) -> (r: Result<(), Mismatch>)
    ensures
        match r {
            Ok(()) => eq_ignore_case(
                expected_checksum(sum_file@),
                hex_lower(sha256_digest(binary@)),
            ),
            Err(m) => !eq_ignore_case(
                expected_checksum(sum_file@),
                hex_lower(sha256_digest(binary@)),
            ) && m.expected@ == expected_checksum(sum_file@) && m.actual@ == hex_lower(
                sha256_digest(binary@),
            ),
        },
{
    let actual = sha256_hex(binary);
    checksum_verdict(sum_file, actual.as_str())
}

// ---------------------------------------------------------------------------
// Update notices
// ---------------------------------------------------------------------------

/// Look for a new release at most once a day.
pub const CHECK_INTERVAL_SECS: u64 = 60 * 60 * 24;

/// Whether it is time to look for a new release, given how many seconds ago
/// the last look was recorded (`None` when that is unknown).
pub fn check_due(age_secs: Option<u64>) -> (due: bool)
    ensures
        due == !(age_secs matches Some(a) && a < CHECK_INTERVAL_SECS),
{
    match age_secs {
        Some(a) => a >= CHECK_INTERVAL_SECS,
        None => true,
    }
}

// ---------------------------------------------------------------------------
// Further laws
// ---------------------------------------------------------------------------

/// Versions made of a single run of digits compare as the numbers they
/// denote (so "10" is newer than "9", unlike text order).
pub proof fn law_single_field_versions_compare_numerically(x: Seq<char>, y: Seq<char>)
    requires
        x.len() > 0,
        y.len() > 0,
        forall|k: int| 0 <= k < x.len() ==> is_digit(#[trigger] x[k]),
        forall|k: int| 0 <= k < y.len() ==> is_digit(#[trigger] y[k]),
        digits_value(x) <= u64::MAX,
        digits_value(y) <= u64::MAX,
    ensures
        is_newer_spec(x, y) <==> digits_value(x) > digits_value(y),
{
    lemma_single_field(x);
    lemma_single_field(y);
    let a = seq![digits_value(y) as u64];
    let b = seq![digits_value(x) as u64];
    assert(a.drop_first() == Seq::<u64>::empty());
    assert(b.drop_first() == Seq::<u64>::empty());
    assert(a[0] == digits_value(y) as u64 && b[0] == digits_value(x) as u64);
    assert(a[0] as int == digits_value(y) && b[0] as int == digits_value(x));
    assert(!lex_less(Seq::<u64>::empty(), Seq::<u64>::empty()));
    assert(is_newer_spec(x, y) == lex_less(a, b));
}

proof fn lemma_single_field(x: Seq<char>)
    requires
        x.len() > 0,
        forall|k: int| 0 <= k < x.len() ==> is_digit(#[trigger] x[k]),
        digits_value(x) <= u64::MAX,
    ensures
        version_fields(x) == seq![digits_value(x) as u64],
{
    reveal_strlit(".");
    assert(!crate::text::contains(x, "."@)) by {
        if crate::text::contains(x, "."@) {
            let i = choose|i: int| crate::text::occurs_at(x, "."@, i);
            assert(x.subrange(i, i + 1)[0] == x[i]);
            assert("."@[0] == '.');
        }
    }
    crate::text::lemma_find_contains(x, "."@);
    assert(split(x, "."@) == seq![x]);
    lemma_leading_digits(x, x.len() as int);
    assert(x.take(x.len() as int) == x);
    assert(seq![x].map_values(|p: Seq<char>| field_value(p)) == seq![field_value(x)]);
}

/// A version that extends another by further fields is newer than it
/// ("0.1.0" is newer than "0.1"); equal field lists are never newer.
pub proof fn law_more_fields_is_newer(a: Seq<u64>, b: Seq<u64>)
    ensures
        lex_less(a, a + b) <==> b.len() > 0,
    decreases a.len(),
{
    if a.len() > 0 {
        assert((a + b)[0] == a[0]);
        assert((a + b).drop_first() == a.drop_first() + b);
        law_more_fields_is_newer(a.drop_first(), b);
    } else {
        assert(a + b == b);
    }
}

/// A release tag loses exactly its leading `v`s: what remains does not start
/// with `v`, and everything before it is `v`.
pub proof fn law_tag_loses_leading_vs(tag: Seq<char>)
    ensures
        strip_leading_v(tag).len() <= tag.len(),
        strip_leading_v(tag) == tag.skip(tag.len() - strip_leading_v(tag).len()),
        forall|k: int| 0 <= k < tag.len() - strip_leading_v(tag).len() ==> #[trigger] tag[k] == 'v',
        strip_leading_v(tag).len() > 0 ==> strip_leading_v(tag)[0] != 'v',
    decreases tag.len(),
{
    if tag.len() > 0 && tag[0] == 'v' {
        law_tag_loses_leading_vs(tag.drop_first());
        let r = strip_leading_v(tag.drop_first());
        assert(tag.drop_first().skip(tag.drop_first().len() - r.len()) == tag.skip(
            tag.len() - r.len(),
        ));
        assert forall|k: int| 0 <= k < tag.len() - r.len() implies #[trigger] tag[k] == 'v' by {
            if k > 0 {
                assert(tag[k] == tag.drop_first()[k - 1]);
            }
        }
    } else {
        assert(tag.skip(0) == tag);
    }
}

/// The update check is due once a day: a look recorded less than 86400
/// seconds ago postpones it, an older or unknown one does not.
pub proof fn law_daily_interval()
    ensures
        CHECK_INTERVAL_SECS == 86400,
{
}

/// Each byte becomes two lower-case hexadecimal digits, the high half first.
pub proof fn law_hex_digits(bytes: Seq<u8>)
    ensures
        hex_lower(bytes).len() == 2 * bytes.len(),
        forall|k: int| #![trigger bytes[k]]
            0 <= k < bytes.len() ==> hex_lower(bytes)[2 * k] == "0123456789abcdef"@[(bytes[k]
                / 16) as int] && hex_lower(bytes)[2 * k + 1] == "0123456789abcdef"@[(bytes[k] % 16) as int],
    decreases bytes.len(),
{
    if bytes.len() > 0 {
        let rest = bytes.drop_first();
        law_hex_digits(rest);
        let b0 = bytes[0];
        assert(b0 >> 4 == b0 / 16 && b0 & 0x0f == b0 % 16) by (bit_vector);
        let h = "0123456789abcdef"@;
        assert(hex_lower(bytes) == seq![h[(b0 >> 4) as int], h[(b0 & 0x0f) as int]] + hex_lower(
            rest,
        ));
        assert forall|k: int| #![trigger bytes[k]] 0 <= k < bytes.len() implies hex_lower(
            bytes,
        )[2 * k] == h[(bytes[k] / 16) as int] && hex_lower(bytes)[2 * k + 1] == h[(bytes[k] % 16) as int] by {
            if k > 0 {
                assert(bytes[k] == rest[k - 1]);
                assert(hex_lower(bytes)[2 * k] == hex_lower(rest)[2 * (k - 1)]);
                assert(hex_lower(bytes)[2 * k + 1] == hex_lower(rest)[2 * (k - 1) + 1]);
            }
        }
    }
}

/// The expected checksum is the first word of the checksum file: a digest
/// followed by whitespace and anything else (such as the file name) is
/// taken alone.
pub proof fn law_checksum_is_first_word(h: Seq<char>, c: Seq<char>, rest: Seq<char>)
    requires
        h.len() > 0,
        forall|k: int| 0 <= k < h.len() ==> !crate::text::is_ws(#[trigger] h[k]),
        c.len() > 0,
        forall|k: int| 0 <= k < c.len() ==> crate::text::is_ws(#[trigger] c[k]),
    ensures
        expected_checksum(h + c + rest) == h,
{
    assert((c + rest)[0] == c[0]);
    crate::search::lemma_words_of_word_then(h, c + rest);
    assert(h + c + rest == h + (c + rest));
}

} // verus!
