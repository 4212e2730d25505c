//! Exporting a note as a standalone crate: the crate's name, the `.cord`
//! file of each module, and the scaffolding files.
use vstd::prelude::*;
use crate::text::{alphanumeric, lowercase, trim, chars_of, trim_chars, string_of, string_from, to_lowercase_string, char_is_alphanumeric};
use crate::blocks::{level_number, HeadingLevel};
use crate::editor::join_lines;

verus! {

/// `s` with spaces and underscores turned into `-` and every character
/// that is neither alphanumeric nor `-` dropped.
pub open spec fn hyphen_chars(s: Seq<char>) -> Seq<char>
    decreases s.len(),
{
    if s.len() == 0 {
        Seq::empty()
    } else {
        let c = if s.last() == ' ' || s.last() == '_' { '-' } else { s.last() };
        if alphanumeric(c) || c == '-' {
            hyphen_chars(s.drop_last()).push(c)
        } else {
            hyphen_chars(s.drop_last())
        }
    }
}

/// `s` without leading `-`.
pub open spec fn trim_dashes_start(s: Seq<char>) -> Seq<char>
    decreases s.len(),
{
    if s.len() > 0 && s[0] == '-' {
        trim_dashes_start(s.drop_first())
    } else {
        s
    }
}

/// `s` without trailing `-`.
pub open spec fn trim_dashes_end(s: Seq<char>) -> Seq<char>
    decreases s.len(),
{
    if s.len() > 0 && s.last() == '-' {
        trim_dashes_end(s.drop_last())
    } else {
        s
    }
}

/// The hyphen form of a name: trimmed, lower-cased, spaces and
/// underscores to `-`, other non-alphanumerics dropped, outer `-` removed.
pub open spec fn hyphen_name(s: Seq<char>) -> Seq<char> {
    trim_dashes_end(trim_dashes_start(hyphen_chars(lowercase(trim(s)))))
}

proof fn lemma_trim_dashes_start(s: Seq<char>, i: int)
    requires
        0 <= i <= s.len(),
        forall|k: int| 0 <= k < i ==> #[trigger] s[k] == '-',
        i == s.len() || s[i] != '-',
    ensures
        trim_dashes_start(s) == s.skip(i),
    decreases i,
{
    if i > 0 {
        assert forall|k: int| 0 <= k < i - 1 implies #[trigger] s.drop_first()[k] == '-' by {
            assert(s.drop_first()[k] == s[k + 1]);
        }
        if i < s.len() {
            assert(s.drop_first()[i - 1] == s[i]);
        }
        lemma_trim_dashes_start(s.drop_first(), i - 1);
        assert(s.drop_first().skip(i - 1) =~= s.skip(i));
    } else {
        assert(s.skip(0) =~= s);
    }
}

proof fn lemma_trim_dashes_end(s: Seq<char>, j: int)
    requires
        0 <= j <= s.len(),
        forall|k: int| j <= k < s.len() ==> #[trigger] s[k] == '-',
        j == 0 || s[j - 1] != '-',
    ensures
        trim_dashes_end(s) == s.take(j),
    decreases s.len() - j,
{
    if j < s.len() {
        assert forall|k: int| j <= k < s.len() - 1 implies #[trigger] s.drop_last()[k] == '-' by {
            assert(s.drop_last()[k] == s[k]);
        }
        if j > 0 {
            assert(s.drop_last()[j - 1] == s[j - 1]);
        }
        lemma_trim_dashes_end(s.drop_last(), j);
        assert(s.drop_last().take(j) =~= s.take(j));
    } else {
        assert(s.take(j) =~= s);
    }
}

/// Converts a free-form string to hyphen form for use as a crate or
/// folder name.
pub fn to_hyphen_name(s: &str) -> (r: String)
    ensures
        r@ == hyphen_name(s@),
{
    let cs = chars_of(s);
    let t = trim_chars(cs.as_slice());
    let ts = string_of(t.as_slice());
    let low = to_lowercase_string(ts.as_str());
    let lc = chars_of(low.as_str());
    let mut mapped: Vec<char> = Vec::new();
    let mut i: usize = 0;
    while i < lc.len()
        invariant
            i <= lc@.len(),
            mapped@ == hyphen_chars(lc@.take(i as int)),
        decreases lc@.len() - i,
    {
        assert(lc@.take(i + 1).drop_last() =~= lc@.take(i as int));
        let c = if lc[i] == ' ' || lc[i] == '_' {
            '-'
        } else {
            lc[i]
        };
        if c == '-' || char_is_alphanumeric(c) {
            mapped.push(c);
        }
        i += 1;
    }
    assert(lc@.take(lc@.len() as int) =~= lc@);
    let mut a: usize = 0;
    while a < mapped.len() && mapped[a] == '-'
        invariant
            a <= mapped@.len(),
            forall|k: int| 0 <= k < a ==> #[trigger] mapped@[k] == '-',
        decreases mapped@.len() - a,
    {
        a += 1;
    }
    proof {
        lemma_trim_dashes_start(mapped@, a as int);
    }
    let mut b: usize = mapped.len();
    while b > a && mapped[b - 1] == '-'
        invariant
            a <= b <= mapped@.len(),
            forall|k: int| b <= k < mapped@.len() ==> #[trigger] mapped@[k] == '-',
        decreases b,
    {
        b -= 1;
    }
    let out = crate::text::sub_chars(mapped.as_slice(), a, b);
    proof {
        let rest = mapped@.skip(a as int);
        assert forall|k: int| b - a <= k < rest.len() implies #[trigger] rest[k] == '-' by {
            assert(rest[k] == mapped@[a + k]);
        }
        if b > a {
            assert(rest[b - a - 1] == mapped@[b - 1]);
        }
        lemma_trim_dashes_end(rest, b - a);
        assert(out@ =~= rest.take(b - a));
    }
    string_of(out.as_slice())
}

proof fn lemma_trim_dashes_start_shape(s: Seq<char>)
    ensures
        trim_dashes_start(s).len() > 0 ==> trim_dashes_start(s)[0] != '-',
        trim_dashes_start(s).len() <= s.len(),
        forall|k: int| 0 <= k < trim_dashes_start(s).len() ==> #[trigger] trim_dashes_start(s)[k] == s[k + s.len() - trim_dashes_start(s).len()],
    decreases s.len(),
{
    if s.len() > 0 && s[0] == '-' {
        lemma_trim_dashes_start_shape(s.drop_first());
    }
}

proof fn lemma_trim_dashes_end_shape(s: Seq<char>)
    ensures
        trim_dashes_end(s).len() > 0 ==> trim_dashes_end(s).last() != '-',
        trim_dashes_end(s).len() <= s.len(),
        forall|k: int| 0 <= k < trim_dashes_end(s).len() ==> #[trigger] trim_dashes_end(s)[k] == s[k],
    decreases s.len(),
{
    if s.len() > 0 && s.last() == '-' {
        lemma_trim_dashes_end_shape(s.drop_last());
    }
}

proof fn lemma_hyphen_chars_alnum(s: Seq<char>)
    ensures
        forall|k: int| 0 <= k < hyphen_chars(s).len() ==> (alphanumeric(#[trigger] hyphen_chars(s)[k]) || hyphen_chars(s)[k] == '-'),
    decreases s.len(),
{
    if s.len() > 0 {
        lemma_hyphen_chars_alnum(s.drop_last());
        let r = hyphen_chars(s.drop_last());
        let n = hyphen_chars(s);
        assert forall|k: int| 0 <= k < n.len() implies (alphanumeric(#[trigger] n[k]) || n[k] == '-') by {
            if k < r.len() {
                assert(n[k] == r[k]);
            }
        }
    }
}

/// A hyphen name is made of alphanumerics and `-` only, and neither
/// starts nor ends with `-`.
pub proof fn lemma_hyphen_name_no_outer_dash(s: Seq<char>)
    ensures
        hyphen_name(s).len() > 0 ==> hyphen_name(s)[0] != '-' && hyphen_name(s).last() != '-',
        forall|k: int| 0 <= k < hyphen_name(s).len() ==> (alphanumeric(#[trigger] hyphen_name(s)[k]) || hyphen_name(s)[k] == '-'),
{
    let m = hyphen_chars(lowercase(trim(s)));
    let a = trim_dashes_start(m);
    lemma_hyphen_chars_alnum(lowercase(trim(s)));
    lemma_trim_dashes_start_shape(m);
    lemma_trim_dashes_end_shape(a);
    let b = trim_dashes_end(a);
    if b.len() > 0 {
        assert(b[0] == a[0]);
    }
    assert forall|k: int| 0 <= k < b.len() implies (alphanumeric(#[trigger] b[k]) || b[k] == '-') by {
        assert(b[k] == a[k]);
        assert(a[k] == m[k + m.len() - a.len()]);
    }
}

/// `s` cut to `max` characters, with `...` added when it was longer.
pub open spec fn truncated(s: Seq<char>, max: nat) -> Seq<char> {
    if s.len() <= max {
        s
    } else {
        s.take(max as int) + "..."@
    }
}

/// Cuts `s` to at most `max` characters, marking a cut with `...`.
pub fn truncate(s: &str, max: usize) -> (r: String)
    ensures
        r@ == truncated(s@, max as nat),
{
    let cs = chars_of(s);
    if cs.len() <= max {
        return string_of(cs.as_slice());
    }
    let head = crate::text::sub_chars(cs.as_slice(), 0, max);
    let mut out = string_of(head.as_slice());
    crate::text::push_str(&mut out, "...");
    assert(head@ =~= s@.take(max as int));
    out
}

/// `s` without any number of trailing `.cord`.
pub open spec fn strip_cord(s: Seq<char>) -> Seq<char>
    decreases s.len(),
{
    if s.len() >= 5 && s.subrange(s.len() - 5, s.len() as int) == seq!['.', 'c', 'o', 'r', 'd'] {
        strip_cord(s.take(s.len() - 5))
    } else {
        s
    }
}

/// `s` with every non-alphanumeric character turned into `_`.
pub open spec fn underscored(s: Seq<char>) -> Seq<char> {
    Seq::new(s.len(), |i: int| if alphanumeric(s[i]) { s[i] } else { '_' })
}

/// `s` without leading characters that are neither alphabetic nor `_`.
pub open spec fn skip_non_ident_start(s: Seq<char>) -> Seq<char>
    decreases s.len(),
{
    if s.len() > 0 && !(crate::text::alphabetic(s[0]) || s[0] == '_') {
        skip_non_ident_start(s.drop_first())
    } else {
        s
    }
}

/// Identifier made from a block file name: without the `.cord`
/// extension, non-alphanumerics as `_`, no leading non-letter.
pub open spec fn ident_of_filename(f: Seq<char>) -> Seq<char> {
    skip_non_ident_start(underscored(strip_cord(f)))
}

/// The identifier a block file's contents are bound to.
#[verifier::rlimit(40)]
pub fn ident_from_filename(filename: &str) -> (r: String)
    ensures
        r@ == ident_of_filename(filename@),
{
    let cs = chars_of(filename);
    let mut end = cs.len();
    assert(cs@.take(end as int) =~= cs@);
    while end >= 5 && cs[end - 5] == '.' && cs[end - 4] == 'c' && cs[end - 3] == 'o' && cs[end - 2] == 'r'
        && cs[end - 1] == 'd'
        invariant
            end <= cs@.len(),
            strip_cord(cs@) == strip_cord(cs@.take(end as int)),
        decreases end,
    {
        let ghost t = cs@.take(end as int);
        assert(t.subrange(t.len() - 5, t.len() as int) =~= seq!['.', 'c', 'o', 'r', 'd']);
        assert(t.take(t.len() - 5) =~= cs@.take(end - 5));
        end -= 5;
    }
    proof {
        let t = cs@.take(end as int);
        if t.len() >= 5 {
            if t.subrange(t.len() - 5, t.len() as int) == seq!['.', 'c', 'o', 'r', 'd'] {
                assert(t.subrange(t.len() - 5, t.len() as int)[0] == cs@[end - 5]);
                assert(t.subrange(t.len() - 5, t.len() as int)[1] == cs@[end - 4]);
                assert(t.subrange(t.len() - 5, t.len() as int)[2] == cs@[end - 3]);
                assert(t.subrange(t.len() - 5, t.len() as int)[3] == cs@[end - 2]);
                assert(t.subrange(t.len() - 5, t.len() as int)[4] == cs@[end - 1]);
            }
        }
    }
    let mut mapped: Vec<char> = Vec::new();
    let mut i: usize = 0;
    while i < end
        invariant
            i <= end <= cs@.len(),
            mapped@ == underscored(cs@.take(end as int)).take(i as int),
        decreases end - i,
    {
        let c = if char_is_alphanumeric(cs[i]) {
            cs[i]
        } else {
            '_'
        };
        mapped.push(c);
        assert(mapped@ =~= underscored(cs@.take(end as int)).take(i + 1));
        i += 1;
    }
    assert(underscored(cs@.take(end as int)).take(end as int) =~= underscored(cs@.take(end as int)));
    let mut a: usize = 0;
    assert(mapped@.skip(0) =~= mapped@);
    while a < mapped.len() && !(crate::text::char_is_alphabetic(mapped[a]) || mapped[a] == '_')
        invariant
            a <= mapped@.len(),
            skip_non_ident_start(mapped@) == skip_non_ident_start(mapped@.skip(a as int)),
        decreases mapped@.len() - a,
    {
        assert(mapped@.skip(a as int).drop_first() =~= mapped@.skip(a + 1));
        assert(mapped@.skip(a as int)[0] == mapped@[a as int]);
        a += 1;
    }
    if a < mapped.len() {
        assert(mapped@.skip(a as int)[0] == mapped@[a as int]);
    }
    let rest = crate::text::sub_chars(mapped.as_slice(), a, mapped.len());
    assert(rest@ =~= mapped@.skip(a as int));
    string_of(rest.as_slice())
}

/// `Cargo.toml` of an exported note crate named `name`.
pub fn cargo_toml(name: &str) -> (r: String)
    ensures
        r@ == "[package]\nname = \""@ + name@ + "\"\nversion = \"0.1.0\"\nedition = \"2024\"\n\n[lib]\npath = \"src/lib.rs\"\n\n[[bin]]\nname = \""@ + name@ + "\"\npath = \"src/main.rs\"\n\n[dependencies]\nacord-core = { git = \"https://git.else-if.org/jess/Acord.git\", package = \"acord-core\" }\n"@,
{
    let mut s = string_from("[package]\nname = \"");
    crate::text::push_str(&mut s, name);
    crate::text::push_str(&mut s, "\"\nversion = \"0.1.0\"\nedition = \"2024\"\n\n[lib]\npath = \"src/lib.rs\"\n\n[[bin]]\nname = \"");
    crate::text::push_str(&mut s, name);
    crate::text::push_str(&mut s, "\"\npath = \"src/main.rs\"\n\n[dependencies]\nacord-core = { git = \"https://git.else-if.org/jess/Acord.git\", package = \"acord-core\" }\n");
    s
}

/// `install.sh` of an exported note crate named `name`: builds if needed and copies the binary to `~/.acord/bin`.
pub fn install_sh(name: &str) -> (r: String)
    ensures
        r@ == "#!/usr/bin/env bash\nset -e\nNAME=\""@ + name@ + "\"\nDEST=\"${HOME}/.acord/bin\"\n\nif [ ! -f \"target/release/${NAME}\" ]; then\n    echo \"No release binary found. Running ./build.sh first...\"\n    ./build.sh\nfi\n\nmkdir -p \"$DEST\"\ncp \"target/release/${NAME}\" \"$DEST/${NAME}\"\nchmod +x \"$DEST/${NAME}\"\n\necho \"Installed: ${DEST}/${NAME}\"\necho \"\"\necho \"Add ~/.acord/bin to your PATH if you haven't already:\"\necho \"\"\necho \"  # zsh:\"\necho \"  echo 'export PATH=\\\"\\$HOME/.acord/bin:\\$PATH\\\"' >> ~/.zshrc && source ~/.zshrc\"\necho \"\"\necho \"  # bash:\"\necho \"  echo 'export PATH=\\\"\\$HOME/.acord/bin:\\$PATH\\\"' >> ~/.bashrc && source ~/.bashrc\"\n"@,
{
    let mut s = string_from("#!/usr/bin/env bash\nset -e\nNAME=\"");
    crate::text::push_str(&mut s, name);
    crate::text::push_str(&mut s, "\"\nDEST=\"${HOME}/.acord/bin\"\n\nif [ ! -f \"target/release/${NAME}\" ]; then\n    echo \"No release binary found. Running ./build.sh first...\"\n    ./build.sh\nfi\n\nmkdir -p \"$DEST\"\ncp \"target/release/${NAME}\" \"$DEST/${NAME}\"\nchmod +x \"$DEST/${NAME}\"\n\necho \"Installed: ${DEST}/${NAME}\"\necho \"\"\necho \"Add ~/.acord/bin to your PATH if you haven't already:\"\necho \"\"\necho \"  # zsh:\"\necho \"  echo 'export PATH=\\\"\\$HOME/.acord/bin:\\$PATH\\\"' >> ~/.zshrc && source ~/.zshrc\"\necho \"\"\necho \"  # bash:\"\necho \"  echo 'export PATH=\\\"\\$HOME/.acord/bin:\\$PATH\\\"' >> ~/.bashrc && source ~/.bashrc\"\n");
    s
}

/// `build.sh` of an exported note crate: a release build.
pub fn build_sh(_name: &str) -> (r: String)
    ensures
        r@ == "#!/usr/bin/env bash\nset -e\n# TODO: AOT codegen — compile .cord sources to Rust source, produce a static\n# binary with zero interpreter overhead. See the cordial-to-rust-codegen plan\n# for the design. Until then, this builds the REPL binary in release mode.\ncargo build --release\necho \"Built target/release/$(basename \"$PWD\")\"\n"@,
{
    string_from("#!/usr/bin/env bash\nset -e\n# TODO: AOT codegen — compile .cord sources to Rust source, produce a static\n# binary with zero interpreter overhead. See the cordial-to-rust-codegen plan\n# for the design. Until then, this builds the REPL binary in release mode.\ncargo build --release\necho \"Built target/release/$(basename \"$PWD\")\"\n")
}

// ---------------------------------------------------------------------------
// Module files
// ---------------------------------------------------------------------------

/// `s` quoted for a TOML string: `\` and `"` escaped with a backslash.
pub open spec fn escaped_title(s: Seq<char>) -> Seq<char>
    decreases s.len(),
{
    if s.len() == 0 {
        seq![]
    } else {
        let c = s.last();
        escaped_title(s.drop_last()) + if c == '\\' {
            seq!['\\', '\\']
        } else if c == '"' {
            seq!['\\', '"']
        } else {
            seq![c]
        }
    }
}

/// Escapes `\` and `"` in a title with a backslash.
pub fn escape_title(s: &str) -> (r: String)
    ensures
        r@ == escaped_title(s@),
{
    let cs = chars_of(s);
    let mut out = String::new();
    let mut i: usize = 0;
    while i < cs.len()
        invariant
            i <= cs@.len(),
            cs@ == s@,
            out@ == escaped_title(cs@.take(i as int)),
        decreases cs@.len() - i,
    {
        assert(cs@.take(i + 1).drop_last() =~= cs@.take(i as int));
        let c = cs[i];
        if c == '\\' {
            crate::text::push_char(&mut out, '\\');
            crate::text::push_char(&mut out, '\\');
        } else if c == '"' {
            crate::text::push_char(&mut out, '\\');
            crate::text::push_char(&mut out, '"');
        } else {
            crate::text::push_char(&mut out, c);
        }
        assert(out@ =~= escaped_title(cs@.take(i + 1)));
        i += 1;
    }
    assert(cs@.take(cs@.len() as int) =~= cs@);
    out
}

/// Text of a module's `.cord` file: front matter giving its kind
/// (`section` for a module under a heading, else `anonymous`), its index
/// and its title, then its source.
pub open spec fn cord_content(is_section: bool, index: nat, title: Seq<char>, source: Seq<char>) -> Seq<
    char,
> {
    "---\nkind = \""@ + (if is_section {
        "section"@
    } else {
        "anonymous"@
    }) + "\"\nindex = "@ + crate::num::decimal(index) + "\ntitle = \""@ + escaped_title(title)
        + "\"\n---\n"@ + source
}

/// The `.cord` file text of a module.
pub fn cord_file_content(is_section: bool, index: usize, title: &str, source: &str) -> (r: String)
    ensures
        r@ == cord_content(is_section, index as nat, title@, source@),
{
    let mut out = string_from("---\nkind = \"");
    if is_section {
        crate::text::push_str(&mut out, "section");
    } else {
        crate::text::push_str(&mut out, "anonymous");
    }
    crate::text::push_str(&mut out, "\"\nindex = ");
    let d = crate::num::decimal_chars(index as u64);
    crate::text::push_chars(&mut out, d.as_slice());
    crate::text::push_str(&mut out, "\ntitle = \"");
    let t = escape_title(title);
    crate::text::push_str(&mut out, t.as_str());
    crate::text::push_str(&mut out, "\"\n---\n");
    crate::text::push_str(&mut out, source);
    out
}

/// Base name of a module's file: its name, or `block_N` for an unnamed
/// module at index `N`.
pub open spec fn file_base(name: Seq<char>, index: nat) -> Seq<char> {
    if name.len() == 0 {
        "block_"@ + crate::num::decimal(index)
    } else {
        name
    }
}

/// The `n`-th candidate file name for base `b`: `b.cord`, then `b_2.cord`,
/// `b_3.cord`, ...
pub open spec fn candidate(b: Seq<char>, n: nat) -> Seq<char> {
    if n <= 1 {
        b + ".cord"@
    } else {
        b + seq!['_'] + crate::num::decimal(n) + ".cord"@
    }
}

proof fn lemma_candidate_injective(b: Seq<char>, n: nat, m: nat)
    requires
        1 <= n,
        1 <= m,
        candidate(b, n) == candidate(b, m),
    ensures
        n == m,
{
    reveal_strlit(".cord");
    crate::num::lemma_decimal_digits(n);
    crate::num::lemma_decimal_digits(m);
    if n >= 2 && m >= 2 {
        let cn = candidate(b, n);
        let cm = candidate(b, m);
        assert(cn.len() == cm.len());
        let dn = crate::num::decimal(n);
        let dm = crate::num::decimal(m);
        assert(dn.len() == dm.len());
        assert(cn.subrange((b.len() + 1) as int, (b.len() + 1 + dn.len()) as int) =~= dn);
        assert(cm.subrange((b.len() + 1) as int, (b.len() + 1 + dm.len()) as int) =~= dm);
    } else if n >= 2 || m >= 2 {
        assert(".cord"@.len() == 5);
        assert(candidate(b, 1).len() == b.len() + 5);
        if n >= 2 {
            assert(candidate(b, n).len() == b.len() + 1 + crate::num::decimal(n).len() + 5);
        }
        if m >= 2 {
            assert(candidate(b, m).len() == b.len() + 1 + crate::num::decimal(m).len() + 5);
        }
    }
}

/// Number of entries of `used` that are candidates from the `n`-th on.
spec fn pending(used: Seq<Seq<char>>, b: Seq<char>, n: nat) -> nat
    decreases used.len(),
{
    if used.len() == 0 {
        0
    } else {
        pending(used.drop_last(), b, n) + if exists|m: nat| m >= n && candidate(b, m) == used.last() {
            1nat
        } else {
            0nat
        }
    }
}

proof fn lemma_pending_step(used: Seq<Seq<char>>, b: Seq<char>, n: nat)
    requires
        n >= 1,
        used.contains(candidate(b, n)),
    ensures
        pending(used, b, n + 1) < pending(used, b, n),
    decreases used.len(),
{
    lemma_pending_le(used.drop_last(), b, n);
    if used.last() == candidate(b, n) {
        assert(exists|m: nat| m >= n && candidate(b, m) == used.last());
        if exists|m: nat| m >= n + 1 && candidate(b, m) == used.last() {
            let m = choose|m: nat| m >= n + 1 && candidate(b, m) == used.last();
            lemma_candidate_injective(b, n, m);
        }
    } else {
        let k = choose|k: int| 0 <= k < used.len() && used[k] == candidate(b, n);
        assert(used.drop_last()[k] == candidate(b, n));
        lemma_pending_step(used.drop_last(), b, n);
        if exists|m: nat| m >= n + 1 && candidate(b, m) == used.last() {
            let m = choose|m: nat| m >= n + 1 && candidate(b, m) == used.last();
            assert(m >= n);
        }
    }
}

proof fn lemma_pending_len(used: Seq<Seq<char>>, b: Seq<char>, n: nat)
    ensures
        pending(used, b, n) <= used.len(),
    decreases used.len(),
{
    if used.len() > 0 {
        lemma_pending_len(used.drop_last(), b, n);
    }
}

proof fn lemma_pending_le(used: Seq<Seq<char>>, b: Seq<char>, n: nat)
    ensures
        pending(used, b, n + 1) <= pending(used, b, n),
    decreases used.len(),
{
    if used.len() > 0 {
        lemma_pending_le(used.drop_last(), b, n);
        if exists|m: nat| m >= n + 1 && candidate(b, m) == used.last() {
            let m = choose|m: nat| m >= n + 1 && candidate(b, m) == used.last();
            assert(m >= n);
        }
    }
}

/// Picks the file name of module number `index` called `name`: the first
/// candidate not in `used`, which is then added to `used`.
pub fn unique_cord_filename(name: &str, index: usize, used: &mut Vec<String>) -> (r: String)
    requires
        old(used)@.len() < usize::MAX,
    ensures
        exists|k: nat|
            k >= 1 && r@ == candidate(file_base(name@, index as nat), k) && !crate::text::string_views(
                old(used)@,
            ).contains(r@) && forall|m: nat|
                1 <= m < k ==> crate::text::string_views(old(used)@).contains(
                    #[trigger] candidate(file_base(name@, index as nat), m),
                ),
        final(used)@ == old(used)@.push(r),
{
    let base = if name.is_empty() {
        let mut b = string_from("block_");
        let d = crate::num::decimal_chars(index as u64);
        crate::text::push_chars(&mut b, d.as_slice());
        b
    } else {
        string_from(name)
    };
    let ghost b = file_base(name@, index as nat);
    assert(base@ == b);
    let ghost uv = crate::text::string_views(used@);
    let mut n: usize = 1;
    let mut cand = string_from(base.as_str());
    crate::text::push_str(&mut cand, ".cord");
    proof {
        lemma_pending_len(uv, b, 1);
    }
    while crate::text::contains_string(used.as_slice(), cand.as_str())
        invariant
            n >= 1,
            base@ == b,
            cand@ == candidate(b, n as nat),
            uv == crate::text::string_views(used@),
            uv.len() < usize::MAX,
            n + pending(uv, b, n as nat) <= uv.len() + 1,
            forall|m: nat| 1 <= m < n ==> uv.contains(#[trigger] candidate(b, m)),
        decreases pending(uv, b, n as nat),
    {
        proof {
            lemma_pending_step(uv, b, n as nat);
        }
        n = n + 1;
        let mut c = string_from(base.as_str());
        crate::text::push_char(&mut c, '_');
        let d = crate::num::decimal_chars(n as u64);
        crate::text::push_chars(&mut c, d.as_slice());
        crate::text::push_str(&mut c, ".cord");
        assert(c@ =~= candidate(b, n as nat));
        cand = c;
    }
    used.push(cand.clone());
    cand
}

// ---------------------------------------------------------------------------
// Crate files
// ---------------------------------------------------------------------------

/// Pieces of `src/main.rs` around the crate name, the block includes and
/// the block loading lines.
pub const MAIN_RS_0: &'static str = "//! ";
pub const MAIN_RS_1: &'static str = " — exported Acord note running as a REPL.\n//!\n//! `cargo run` drops you into an interactive Cordial prompt with every block\n//! from the note pre-loaded. It's the notepad experience, minus the UI.\n//!\n//! Type expressions, call functions, reference tables. `:list` to inspect,\n//! `:q` to quit.\n\nuse acord_core::interp::Interpreter;\nuse std::io::{self, BufRead, Write};\n\n";
pub const MAIN_RS_2: &'static str = "\n\nfn main() {\n    let mut interp = Interpreter::new();\n";
pub const MAIN_RS_3: &'static str = "\n    println!(\"{} REPL — :list to show bindings, :q to quit\", env!(\"CARGO_PKG_NAME\"));\n    let stdin = io::stdin();\n    let mut out = io::stdout().lock();\n    let mut line = String::new();\n    loop {\n        write!(out, \"> \").ok();\n        out.flush().ok();\n        line.clear();\n        if stdin.lock().read_line(&mut line).unwrap_or(0) == 0 { break; }\n        let trimmed = line.trim();\n        if trimmed.is_empty() { continue; }\n        if trimmed == \":q\" || trimmed == \":quit\" { break; }\n        if trimmed == \":list\" {\n            list_bindings(&interp);\n            continue;\n        }\n        match interp.exec_line(trimmed) {\n            Ok(Some(v)) => println!(\"{}\", v.display()),\n            Ok(None) => {}\n            Err(e) => eprintln!(\"error: {}\", e),\n        }\n    }\n}\n\n/// Strip the `.cord` front-matter (everything up to and including the first\n/// standalone `---`) and evaluate the remaining source into `interp`.\n/// Lines that fail to parse are silently skipped — same as in the notepad.\nfn load_block(interp: &mut Interpreter, source: &str) {\n    let body = strip_front_matter(source);\n    for line in body.lines() {\n        let _ = interp.exec_line(line);\n    }\n}\n\nfn strip_front_matter(src: &str) -> &str {\n    if !src.starts_with(\"---\") { return src; }\n    let mut lines = src.split_inclusive('\\n');\n    // skip opening ---\n    lines.next();\n    // skip through closing ---\n    let mut consumed = 0;\n    for line in &mut lines {\n        consumed += line.len();\n        if line.trim_end_matches('\\n').trim() == \"---\" { break; }\n    }\n    &src[3 + consumed..]\n}\n\nfn list_bindings(_interp: &Interpreter) {\n    // TODO: when acord-core exposes a public bindings iterator, enumerate here.\n    // For now, users discover bindings by referencing them.\n    println!(\"(binding enumeration not yet implemented)\");\n}\n";

/// Pieces of `src/lib.rs` around the block includes and the block loading
/// lines.
pub const LIB_RS_0: &'static str = "//! Exposes this note's loaded interpreter for use from other Rust projects.\n//!\n//! Example:\n//! ```no_run\n//! let mut interp = my_note::load();\n//! let v = interp.exec_line(\"my_fn(1, 2, 3)\").unwrap();\n//! ```\n\nuse acord_core::interp::Interpreter;\n\n";
pub const LIB_RS_1: &'static str = "\n\npub fn load() -> Interpreter {\n    let mut interp = Interpreter::new();\n";
pub const LIB_RS_2: &'static str = "\n    interp\n}\n\nfn load_block(interp: &mut Interpreter, source: &str) {\n    let body = strip_front_matter(source);\n    for line in body.lines() {\n        let _ = interp.exec_line(line);\n    }\n}\n\nfn strip_front_matter(src: &str) -> &str {\n    if !src.starts_with(\"---\") { return src; }\n    let mut lines = src.split_inclusive('\\n');\n    lines.next();\n    let mut consumed = 0;\n    for line in &mut lines {\n        consumed += line.len();\n        if line.trim_end_matches('\\n').trim() == \"---\" { break; }\n    }\n    &src[3 + consumed..]\n}\n";

/// Pieces of `README.md` around the crate name (twice) and the block
/// inventory.
pub const README_0: &'static str = "# ";
pub const README_1: &'static str = "\n\nThis is your Acord note, exported as a standalone Rust crate.\n\n## Run\n\n- `cargo run` — interactive Cordial REPL with every binding from your note pre-loaded. Call functions, reference tables, mutate variables — exactly like opening a new block below the existing ones in the notepad.\n- `./build.sh` — build the release binary.\n- `./install.sh` — install the binary to `~/.acord/bin` and print PATH setup instructions.\n\n## Blocks\n\n";
pub const README_2: &'static str = "\n## Use from another Rust project\n\nAdd this crate to your `Cargo.toml` as a path dependency, then:\n\n```rust\nuse ";
pub const README_3: &'static str = "::load;\nlet mut interp = load();\nlet v = interp.exec_line(\"my_fn(1, 2, 3)\").unwrap();\nprintln!(\"{}\", v.unwrap().display());\n```\n\n## Notes\n\n- Future versions will AOT-compile your `.cord` sources into native Rust via `./build.sh`, producing binaries with zero interpreter overhead. Today the binary uses the interpreter at runtime.\n- This crate depends on `acord-core` via git. Make sure the host has network access on first build, or switch to a path/vendored dep for offline environments.\n";

/// A block of a module as the export reads it: the text of a heading
/// block, and the block's markdown.
pub struct ExportBlock {
    pub heading: Option<String>,
    pub markdown: String,
}

/// A module to export: its name, whether a heading starts it, its blocks.
pub struct ExportModule {
    pub name: String,
    pub is_section: bool,
    pub blocks: Vec<ExportBlock>,
}

/// A `.cord` file of the exported crate.
pub struct BlockFile {
    pub filename: String,
    pub content: String,
}

/// Title of a module: the text of its first heading that has some.
pub open spec fn module_title(bs: Seq<ExportBlock>) -> Seq<char>
    decreases bs.len(),
{
    if bs.len() == 0 {
        seq![]
    } else {
        let t = module_title(bs.drop_last());
        if t.len() == 0 && bs.last().heading is Some {
            bs.last().heading.unwrap()@
        } else {
            t
        }
    }
}

/// Source of a module: the markdown of its blocks, one after another on
/// their own lines.
pub open spec fn module_markdown(bs: Seq<ExportBlock>) -> Seq<char> {
    join_lines(bs.map_values(|b: ExportBlock| b.markdown@))
}

/// The first candidate file name for base `b` that `used` does not hold.
pub open spec fn free_name(used: Seq<Seq<char>>, b: Seq<char>) -> Seq<char> {
    candidate(
        b,
        choose|k: nat|
            k >= 1 && !used.contains(candidate(b, k)) && forall|m: nat|
                1 <= m < k ==> used.contains(#[trigger] candidate(b, m)),
    )
}

/// File names of the modules, each the first free candidate for its base.
pub open spec fn file_names(ms: Seq<ExportModule>) -> Seq<Seq<char>>
    decreases ms.len(),
{
    if ms.len() == 0 {
        seq![]
    } else {
        let prev = file_names(ms.drop_last());
        prev.push(free_name(prev, file_base(ms.last().name@, (ms.len() - 1) as nat)))
    }
}

proof fn lemma_free_name(used: Seq<Seq<char>>, b: Seq<char>, k: nat)
    requires
        k >= 1,
        !used.contains(candidate(b, k)),
        forall|m: nat| 1 <= m < k ==> used.contains(#[trigger] candidate(b, m)),
    ensures
        free_name(used, b) == candidate(b, k),
{
    let j = choose|j: nat|
        j >= 1 && !used.contains(candidate(b, j)) && forall|m: nat|
            1 <= m < j ==> used.contains(#[trigger] candidate(b, m));
    if j < k {
        assert(used.contains(candidate(b, j)));
    }
    if k < j {
        assert(used.contains(candidate(b, k)));
    }
}

fn module_title_of(bs: &[ExportBlock]) -> (r: String)
    ensures
        r@ == module_title(bs@),
{
    let mut title = String::new();
    let mut i: usize = 0;
    assert(bs@.take(0) =~= Seq::<ExportBlock>::empty());
    while i < bs.len()
        invariant
            i <= bs@.len(),
            title@ == module_title(bs@.take(i as int)),
        decreases bs@.len() - i,
    {
        assert(bs@.take(i + 1).drop_last() =~= bs@.take(i as int));
        if title.as_str().is_empty() {
            match &bs[i].heading {
                Some(h) => {
                    title = h.clone();
                },
                None => {},
            }
        }
        i += 1;
    }
    assert(bs@.take(bs@.len() as int) =~= bs@);
    title
}

fn module_markdown_of(bs: &[ExportBlock]) -> (r: String)
    ensures
        r@ == module_markdown(bs@),
{
    let ghost mds = bs@.map_values(|b: ExportBlock| b.markdown@);
    let mut out = String::new();
    let mut i: usize = 0;
    assert(mds.take(0) =~= Seq::<Seq<char>>::empty());
    while i < bs.len()
        invariant
            i <= bs@.len(),
            mds == bs@.map_values(|b: ExportBlock| b.markdown@),
            out@ == join_lines(mds.take(i as int)),
        decreases bs@.len() - i,
    {
        assert(mds.take(i + 1).drop_last() =~= mds.take(i as int));
        if i > 0 {
            crate::text::push_char(&mut out, '\n');
        }
        crate::text::push_str(&mut out, bs[i].markdown.as_str());
        proof {
            if i == 0 {
                assert(out@ =~= join_lines(mds.take(i + 1)));
            }
        }
        i += 1;
    }
    assert(mds.take(bs@.len() as int) =~= mds);
    out
}

/// The `.cord` file of every module: a file name not used by an earlier
/// module, and the module's front matter and source.
pub fn build_block_files(ms: &[ExportModule]) -> (r: Vec<BlockFile>)
    requires
        ms@.len() < usize::MAX,
    ensures
        r@.len() == ms@.len(),
        forall|i: int|
            0 <= i < ms@.len() ==> (#[trigger] r@[i]).filename@ == file_names(ms@)[i]
                && r@[i].content@ == cord_content(
                ms@[i].is_section,
                i as nat,
                module_title(ms@[i].blocks@),
                module_markdown(ms@[i].blocks@),
            ),
{
    let mut files: Vec<BlockFile> = Vec::new();
    let mut used: Vec<String> = Vec::new();
    let mut i: usize = 0;
    assert(ms@.take(0) =~= Seq::<ExportModule>::empty());
    while i < ms.len()
        invariant
            i <= ms@.len(),
            ms@.len() < usize::MAX,
            files@.len() == i,
            used@.len() == i,
            crate::text::string_views(used@) == file_names(ms@.take(i as int)),
            forall|j: int|
                0 <= j < i ==> (#[trigger] files@[j]).filename@ == file_names(ms@)[j]
                    && files@[j].content@ == cord_content(
                    ms@[j].is_section,
                    j as nat,
                    module_title(ms@[j].blocks@),
                    module_markdown(ms@[j].blocks@),
                ),
        decreases ms@.len() - i,
    {
        let m = &ms[i];
        let title = module_title_of(m.blocks.as_slice());
        let source = module_markdown_of(m.blocks.as_slice());
        let ghost before = crate::text::string_views(used@);
        let filename = unique_cord_filename(m.name.as_str(), i, &mut used);
        proof {
            let k = choose|k: nat|
                k >= 1 && filename@ == candidate(file_base(m.name@, i as nat), k)
                    && !before.contains(filename@) && forall|mm: nat|
                    1 <= mm < k ==> before.contains(
                        #[trigger] candidate(file_base(m.name@, i as nat), mm),
                    );
            lemma_free_name(before, file_base(m.name@, i as nat), k);
            assert(ms@.take(i + 1).drop_last() =~= ms@.take(i as int));
            assert(crate::text::string_views(used@) =~= before.push(filename@));
            assert(ms@.take(i + 1).last() == ms@[i as int]);
            assert(file_names(ms@.take(i + 1)) == before.push(filename@));
            lemma_file_names_prefix(ms@, i + 1);
            assert(file_names(ms@.take(i + 1))[i as int] == filename@);
        }
        let content = cord_file_content(m.is_section, i, title.as_str(), source.as_str());
        files.push(BlockFile { filename, content });
        i += 1;
    }
    proof {
        assert(ms@.take(ms@.len() as int) =~= ms@);
    }
    files
}

proof fn lemma_file_names_prefix(ms: Seq<ExportModule>, n: int)
    requires
        0 <= n <= ms.len(),
    ensures
        file_names(ms.take(n)).len() == n,
        forall|j: int| 0 <= j < n ==> #[trigger] file_names(ms.take(n))[j] == file_names(ms)[j],
    decreases ms.len() - n,
{
    lemma_file_names_len(ms.take(n));
    if n < ms.len() {
        lemma_file_names_prefix(ms, n + 1);
        assert(ms.take(n + 1).drop_last() =~= ms.take(n));
        assert forall|j: int| 0 <= j < n implies #[trigger] file_names(ms.take(n))[j]
            == file_names(ms)[j] by {
            assert(file_names(ms.take(n + 1))[j] == file_names(ms.take(n))[j]);
        }
    } else {
        assert(ms.take(n) =~= ms);
    }
}

proof fn lemma_file_names_len(ms: Seq<ExportModule>)
    ensures
        file_names(ms).len() == ms.len(),
    decreases ms.len(),
{
    if ms.len() > 0 {
        lemma_file_names_len(ms.drop_last());
    }
}

/// The include line of each block file: a constant named after the file,
/// bound to the file's text.
pub open spec fn include_lines(fs: Seq<BlockFile>) -> Seq<char>
    decreases fs.len(),
{
    if fs.len() == 0 {
        seq![]
    } else {
        let f = fs.last().filename@;
        include_lines(fs.drop_last()) + "const "@ + crate::text::uppercase(ident_of_filename(f))
            + ": &str = include_str!(\"blocks/"@ + f + "\");\n"@
    }
}

/// The loading line of each block file.
pub open spec fn load_lines(fs: Seq<BlockFile>) -> Seq<char>
    decreases fs.len(),
{
    if fs.len() == 0 {
        seq![]
    } else {
        load_lines(fs.drop_last()) + "    load_block(&mut interp, "@ + crate::text::uppercase(
            ident_of_filename(fs.last().filename@),
        ) + ");\n"@
    }
}

/// Include and loading lines for the block files.
fn block_lines(fs: &[BlockFile]) -> (r: (String, String))
    ensures
        r.0@ == include_lines(fs@),
        r.1@ == load_lines(fs@),
{
    let mut includes = String::new();
    let mut inits = String::new();
    let mut i: usize = 0;
    assert(fs@.take(0) =~= Seq::<BlockFile>::empty());
    while i < fs.len()
        invariant
            i <= fs@.len(),
            includes@ == include_lines(fs@.take(i as int)),
            inits@ == load_lines(fs@.take(i as int)),
        decreases fs@.len() - i,
    {
        assert(fs@.take(i + 1).drop_last() =~= fs@.take(i as int));
        assert(fs@.take(i + 1).last() == fs@[i as int]);
        let var = ident_from_filename(fs[i].filename.as_str());
        let upper = crate::text::to_uppercase_string(var.as_str());
        crate::text::push_str(&mut includes, "const ");
        crate::text::push_str(&mut includes, upper.as_str());
        crate::text::push_str(&mut includes, ": &str = include_str!(\"blocks/");
        crate::text::push_str(&mut includes, fs[i].filename.as_str());
        crate::text::push_str(&mut includes, "\");\n");
        crate::text::push_str(&mut inits, "    load_block(&mut interp, ");
        crate::text::push_str(&mut inits, upper.as_str());
        crate::text::push_str(&mut inits, ");\n");
        i += 1;
    }
    assert(fs@.take(fs@.len() as int) =~= fs@);
    (includes, inits)
}

/// `src/main.rs` of an exported note crate: a REPL with every block
/// loaded.
pub fn main_rs(name: &str, fs: &[BlockFile]) -> (r: String)
    ensures
        r@ == MAIN_RS_0@ + name@ + MAIN_RS_1@ + include_lines(fs@) + MAIN_RS_2@ + load_lines(fs@)
            + MAIN_RS_3@,
{
    let (includes, inits) = block_lines(fs);
    let mut s = string_from(MAIN_RS_0);
    crate::text::push_str(&mut s, name);
    crate::text::push_str(&mut s, MAIN_RS_1);
    crate::text::push_str(&mut s, includes.as_str());
    crate::text::push_str(&mut s, MAIN_RS_2);
    crate::text::push_str(&mut s, inits.as_str());
    crate::text::push_str(&mut s, MAIN_RS_3);
    s
}

/// `src/lib.rs` of an exported note crate: loads every block into an
/// interpreter for other crates.
pub fn lib_rs(fs: &[BlockFile]) -> (r: String)
    ensures
        r@ == LIB_RS_0@ + include_lines(fs@) + LIB_RS_1@ + load_lines(fs@) + LIB_RS_2@,
{
    let (includes, inits) = block_lines(fs);
    let mut s = string_from(LIB_RS_0);
    crate::text::push_str(&mut s, includes.as_str());
    crate::text::push_str(&mut s, LIB_RS_1);
    crate::text::push_str(&mut s, inits.as_str());
    crate::text::push_str(&mut s, LIB_RS_2);
    s
}

/// A block listed in the README of an exported note.
pub enum InventoryItem {
    Heading { level: HeadingLevel, text: String },
    Text { content: String },
    Other { kind: String },
}

/// The README line of a block: a heading with its level and text, a text
/// block with its first line (cut to 60 characters), another block by its
/// kind.
pub open spec fn inventory_line(item: InventoryItem) -> Seq<char> {
    match item {
        InventoryItem::Heading { level, text } => "- **heading** (level "@ + crate::num::decimal(
            level_number(level) as nat,
        ) + ") — `"@ + trim(text@) + "`\n"@,
        InventoryItem::Text { content } => {
            let ls = crate::text::lines(content@);
            let preview = if ls.len() == 0 {
                seq![]
            } else {
                trim(ls[0])
            };
            if preview.len() > 0 {
                "- **text** — "@ + truncated(preview, 60) + "\n"@
            } else {
                "- **text**\n"@
            }
        },
        InventoryItem::Other { kind } => "- **"@ + kind@ + "**\n"@,
    }
}

/// The README lines of the blocks.
pub open spec fn inventory(items: Seq<InventoryItem>) -> Seq<char>
    decreases items.len(),
{
    if items.len() == 0 {
        seq![]
    } else {
        inventory(items.drop_last()) + inventory_line(items.last())
    }
}

fn inventory_line_of(item: &InventoryItem) -> (r: String)
    ensures
        r@ == inventory_line(*item),
{
    match item {
        InventoryItem::Heading { level, text } => {
            let mut s = string_from("- **heading** (level ");
            let d = crate::num::decimal_chars(level.as_u8() as u64);
            crate::text::push_chars(&mut s, d.as_slice());
            crate::text::push_str(&mut s, ") — `");
            let tc = chars_of(text.as_str());
            let t = trim_chars(tc.as_slice());
            crate::text::push_chars(&mut s, t.as_slice());
            crate::text::push_str(&mut s, "`\n");
            s
        },
        InventoryItem::Text { content } => {
            let cs = chars_of(content.as_str());
            let ls = crate::text::lines_of(cs.as_slice());
            let preview: Vec<char> = if ls.len() == 0 {
                Vec::new()
            } else {
                assert(crate::text::views(ls@)[0] == ls@[0]@);
                trim_chars(ls[0].as_slice())
            };
            if preview.len() > 0 {
                let mut s = string_from("- **text** — ");
                let p = string_of(preview.as_slice());
                let t = truncate(p.as_str(), 60);
                crate::text::push_str(&mut s, t.as_str());
                crate::text::push_str(&mut s, "\n");
                s
            } else {
                string_from("- **text**\n")
            }
        },
        InventoryItem::Other { kind } => {
            let mut s = string_from("- **");
            crate::text::push_str(&mut s, kind.as_str());
            crate::text::push_str(&mut s, "**\n");
            s
        },
    }
}

/// `README.md` of an exported note crate named `name`, listing its blocks.
pub fn readme_md(name: &str, items: &[InventoryItem]) -> (r: String)
    ensures
        r@ == README_0@ + name@ + README_1@ + inventory(items@) + README_2@ + name@ + README_3@,
{
    let mut inv = String::new();
    let mut i: usize = 0;
    assert(items@.take(0) =~= Seq::<InventoryItem>::empty());
    while i < items.len()
        invariant
            i <= items@.len(),
            inv@ == inventory(items@.take(i as int)),
        decreases items@.len() - i,
    {
        assert(items@.take(i + 1).drop_last() =~= items@.take(i as int));
        let line = inventory_line_of(&items[i]);
        crate::text::push_str(&mut inv, line.as_str());
        i += 1;
    }
    assert(items@.take(items@.len() as int) =~= items@);
    let mut s = string_from(README_0);
    crate::text::push_str(&mut s, name);
    crate::text::push_str(&mut s, README_1);
    crate::text::push_str(&mut s, inv.as_str());
    crate::text::push_str(&mut s, README_2);
    crate::text::push_str(&mut s, name);
    crate::text::push_str(&mut s, README_3);
    s
}

} // verus!
