//! What the commands decide: which paths they hide, whose files they bless,
//! what they refuse, and what they say.
use crate::integrity;
use crate::order;
use crate::path;
use crate::path::FsPath;
use crate::text;
use crate::vault;
use crate::vault::EnvVault;
use crate::vault::KeyError;
use vstd::prelude::*;
use vstd::utf8;

verus! {

/// The path that `s` writes, a leading `~/` standing for the home directory if
/// there is one.
pub open spec fn expanded(home: Option<Seq<u8>>, s: Seq<char>) -> Seq<u8> {
    if home is Some && text::begins_with(s, "~/"@) {
        path::joined(home->0, utf8::encode_utf8(s.skip(2)))
    } else {
        utf8::encode_utf8(s)
    }
}

/// A home directory, if there is one.
pub open spec fn home_view(home: Option<&FsPath>) -> Option<Seq<u8>> {
    match home {
        Some(h) => Some(h@),
        None => None,
    }
}

/// The path that `s` writes, with `~/` expanded.
pub fn normalize_path(home: Option<&FsPath>, s: &str) -> (r: FsPath)
    ensures
        r@ == expanded(home_view(home), s@),
{
    let chars = text::chars_of(s);
    let mark = text::chars_of("~/");
    proof {
        reveal_strlit("~/");
    }
    if let Some(h) = home {
        if text::has_prefix(chars.as_slice(), mark.as_slice()) {
            let rest = text::string_of(&chars.as_slice()[2..chars.len()]);
            assert(rest@ =~= s@.skip(2));
            return h.join(&FsPath::of(rest.as_str()));
        }
    }
    FsPath::of(s)
}

/// The path that `s` writes, with `~/` expanded against a given home.
pub fn expand_under(home: &FsPath, s: &str) -> (r: FsPath)
    ensures
        r@ == expanded(Some(home@), s@),
{
    normalize_path(Some(home), s)
}

/// The paths of `names` under a home directory.
pub open spec fn under(home: Seq<u8>, names: Seq<Seq<char>>) -> Seq<Seq<u8>> {
    names.map_values(|n: Seq<char>| path::joined(home, utf8::encode_utf8(n)))
}

/// The credential paths that are hidden, relative to the home directory.
pub open spec fn credential_names() -> Seq<Seq<char>> {
    seq![
        ".ssh"@,
        ".aws"@,
        ".config/gh"@,
        ".config/gcloud"@,
        ".azure"@,
        ".kube"@,
        ".gnupg"@,
        ".config/op"@,
        ".terraform.d"@,
        ".config/envvault"@,
        ".npmrc"@,
        ".pypirc"@,
        ".netrc"@,
        ".git-credentials"@,
        ".docker/config.json"@,
        ".cargo/credentials.toml"@,
        ".databrickscfg"@,
    ]
}

/// The configuration and trust paths that a baseline tracks, relative to the
/// home directory.
pub open spec fn trust_names() -> Seq<Seq<char>> {
    seq![
        ".gitconfig"@,
        ".curlrc"@,
        ".wgetrc"@,
        ".npmrc"@,
        ".netrc"@,
        ".config/pip/pip.conf"@,
        ".pki"@,
    ]
}

/// The paths of names under a home directory.
fn join_all(home: &FsPath, names: &[&str]) -> (r: Vec<FsPath>)
    ensures
        order::views(r@) == under(home@, names@.map_values(|n: &str| n@)),
{
    let mut r: Vec<FsPath> = Vec::new();
    let mut i: usize = 0;
    while i < names.len()
        invariant
            i <= names@.len(),
            r@.len() == i,
            forall|j: int|
                0 <= j < i ==> (#[trigger] r@[j])@ == path::joined(
                    home@,
                    utf8::encode_utf8(names@[j]@),
                ),
        decreases names.len() - i,
    {
        r.push(home.join(&FsPath::of(names[i])));
        i += 1;
    }
    assert(order::views(r@) =~= under(home@, names@.map_values(|n: &str| n@)));
    r
}

/// The credential paths that are hidden; none without a home directory.
pub fn default_cred_paths(home: Option<&FsPath>) -> (r: Vec<FsPath>)
    ensures
        order::views(r@) == (match home {
            Some(h) => under(h@, credential_names()),
            None => Seq::empty(),
        }),
{
    let names = [
        ".ssh",
        ".aws",
        ".config/gh",
        ".config/gcloud",
        ".azure",
        ".kube",
        ".gnupg",
        ".config/op",
        ".terraform.d",
        ".config/envvault",
        ".npmrc",
        ".pypirc",
        ".netrc",
        ".git-credentials",
        ".docker/config.json",
        ".cargo/credentials.toml",
        ".databrickscfg",
    ];
    assert(names@.map_values(|n: &str| n@) =~= credential_names());
    match home {
        Some(h) => join_all(h, &names),
        None => {
            let r: Vec<FsPath> = Vec::new();
            assert(order::views(r@) =~= Seq::<Seq<u8>>::empty());
            r
        },
    }
}

/// The usual paths of a user that a baseline tracks.
pub fn trust_config_paths(home: &FsPath) -> (r: Vec<FsPath>)
    ensures
        order::views(r@) == under(home@, trust_names()),
{
    let names = [
        ".gitconfig",
        ".curlrc",
        ".wgetrc",
        ".npmrc",
        ".netrc",
        ".config/pip/pip.conf",
        ".pki",
    ];
    assert(names@.map_values(|n: &str| n@) =~= trust_names());
    join_all(home, &names)
}

/// The paths that a baseline of a user tracks: the usual ones, and those given.
pub fn baseline_paths(home: &FsPath, add: &Vec<String>) -> (r: Vec<FsPath>)
    ensures
        order::views(r@) == under(home@, trust_names()) + all_expanded(
            Some(home@),
            order::views(add@),
        ),
{
    let mut v = trust_config_paths(home);
    let ghost usual = v@;
    let mut more = normalize_all(Some(home), add);
    let ghost given = more@;
    v.append(&mut more);
    proof {
        let together = usual + given;
        assert(v@ == together);
        assert(order::views(together) =~= order::views(usual) + order::views(given));
    }
    v
}

/// The paths that some texts write.
pub open spec fn all_expanded(home: Option<Seq<u8>>, given: Seq<Seq<char>>) -> Seq<Seq<u8>> {
    given.map_values(|s: Seq<char>| expanded(home, s))
}

/// The paths that some texts write, with `~/` expanded.
pub fn normalize_all(home: Option<&FsPath>, given: &Vec<String>) -> (r: Vec<FsPath>)
    ensures
        order::views(r@) == all_expanded(home_view(home), order::views(given@)),
{
    let mut r: Vec<FsPath> = Vec::new();
    let mut i: usize = 0;
    while i < given.len()
        invariant
            i <= given@.len(),
            r@.len() == i,
            forall|j: int|
                0 <= j < i ==> (#[trigger] r@[j])@ == expanded(home_view(home), given@[j]@),
        decreases given.len() - i,
    {
        r.push(normalize_path(home, given[i].as_str()));
        i += 1;
    }
    assert(order::views(r@) =~= all_expanded(home_view(home), order::views(given@)));
    r
}

/// The texts that are not empty.
pub open spec fn filled(parts: Seq<Seq<char>>) -> Seq<Seq<char>>
    decreases parts.len(),
{
    if parts.len() == 0 {
        parts
    } else {
        let rest = filled(parts.drop_last());
        if parts.last().len() == 0 {
            rest
        } else {
            rest.push(parts.last())
        }
    }
}

/// The paths of a colon-separated list.
pub open spec fn listed_paths(home: Option<Seq<u8>>, list: Seq<char>) -> Seq<Seq<u8>> {
    all_expanded(home, filled(text::pieces(list, ':')))
}

/// The paths that a colon-separated setting lists; none without the setting.
pub fn inherited_allow(home: Option<&FsPath>, setting: Option<&str>) -> (r: Vec<FsPath>)
    ensures
        order::views(r@) == (match setting {
            Some(s) => listed_paths(home_view(home), s@),
            None => Seq::empty(),
        }),
{
    let mut names: Vec<String> = Vec::new();
    assert(order::views(names@) =~= Seq::<Seq<char>>::empty());
    if let Some(s) = setting {
        let chars = text::chars_of(s);
        let parts = text::split(chars.as_slice(), ':');
        let ghost all = text::pieces(s@, ':');
        let mut i: usize = 0;
        assert(all.take(0) =~= Seq::<Seq<char>>::empty());
        while i < parts.len()
            invariant
                i <= parts@.len(),
                all == text::contents(parts@),
                order::views(names@) == filled(all.take(i as int)),
            decreases parts.len() - i,
        {
            let ghost done = names@;
            proof {
                assert(all[i as int] == parts@[i as int]@);
                assert(all.take(i + 1).drop_last() =~= all.take(i as int));
                assert(all.take(i + 1).last() == parts@[i as int]@);
            }
            if parts[i].len() > 0 {
                let name = text::string_of(parts[i]);
                names.push(name);
                assert(order::views(names@) =~= order::views(done).push(name@));
            }
            i += 1;
        }
        assert(all.take(all.len() as int) =~= all);
    }
    let r = normalize_all(home, &names);
    assert(setting is None ==> order::views(r@) =~= Seq::<Seq<u8>>::empty());
    r
}

/// Those of `paths` that are none of `keep`.
pub open spec fn left_out(paths: Seq<Seq<u8>>, keep: Seq<Seq<u8>>) -> Seq<Seq<u8>>
    decreases paths.len(),
{
    if paths.len() == 0 {
        paths
    } else {
        let rest = left_out(paths.drop_last(), keep);
        if integrity::apart(paths.last(), keep) {
            rest.push(paths.last())
        } else {
            rest
        }
    }
}

/// Whether a path is none of others.
fn is_apart(p: &FsPath, others: &[FsPath]) -> (r: bool)
    ensures
        r == integrity::apart(p@, order::views(others@)),
{
    let mut i: usize = 0;
    while i < others.len()
        invariant
            i <= others@.len(),
            forall|j: int| 0 <= j < i ==> !path::same(p@, #[trigger] order::views(others@)[j]),
        decreases others.len() - i,
    {
        assert(order::views(others@)[i as int] == others@[i as int]@);
        if p.is_same(&others[i]) {
            return false;
        }
        i += 1;
    }
    true
}

/// Those of `paths` that are none of `allow` and none of `frozen`: the paths
/// that a sandboxed run hides.
pub fn paths_to_hide(paths: &[FsPath], allow: &[FsPath], frozen: &[FsPath]) -> (r: Vec<FsPath>)
    ensures
        order::views(r@) == left_out(
            order::views(paths@),
            order::views(allow@) + order::views(frozen@),
        ),
{
    let ghost all = order::views(paths@);
    let ghost a = order::views(allow@);
    let ghost f = order::views(frozen@);
    let mut r: Vec<FsPath> = Vec::new();
    let mut i: usize = 0;
    assert(all.take(0) =~= Seq::<Seq<u8>>::empty());
    assert(order::views(r@) =~= Seq::<Seq<u8>>::empty());
    while i < paths.len()
        invariant
            i <= paths@.len(),
            all == order::views(paths@),
            a == order::views(allow@),
            f == order::views(frozen@),
            order::views(r@) == left_out(all.take(i as int), a + f),
        decreases paths.len() - i,
    {
        let ghost done = r@;
        let p = &paths[i];
        proof {
            assert(all.take(i + 1).drop_last() =~= all.take(i as int));
            assert(all.take(i + 1).last() == p@);
            lemma_apart_concat(p@, a, f);
        }
        if is_apart(p, allow) && is_apart(p, frozen) {
            let copy = p.clone();
            r.push(copy);
            assert(order::views(r@) =~= order::views(done).push(copy@));
        }
        i += 1;
    }
    assert(all.take(all.len() as int) =~= all);
    r
}

proof fn lemma_apart_concat(p: Seq<u8>, a: Seq<Seq<u8>>, b: Seq<Seq<u8>>)
    ensures
        integrity::apart(p, a + b) <==> integrity::apart(p, a) && integrity::apart(p, b),
{
    let all = a + b;
    if integrity::apart(p, all) {
        assert forall|i: int| 0 <= i < a.len() implies !path::same(p, #[trigger] a[i]) by {
            assert(all[i] == a[i]);
        }
        assert forall|i: int| 0 <= i < b.len() implies !path::same(p, #[trigger] b[i]) by {
            assert(all[a.len() + i] == b[i]);
        }
    } else if integrity::apart(p, a) && integrity::apart(p, b) {
        assert forall|i: int| 0 <= i < all.len() implies !path::same(p, #[trigger] all[i]) by {
            if i < a.len() {
                assert(all[i] == a[i]);
            } else {
                assert(all[i] == b[i - a.len()]);
            }
        }
    }
}

/// A sandboxed run hides exactly the credential paths that are neither allowed
/// nor frozen: allowing a path can only leave it visible, never hide or reveal
/// another.
pub proof fn law_hides_exactly(paths: Seq<Seq<u8>>, keep: Seq<Seq<u8>>)
    ensures
        forall|p: Seq<u8>| #[trigger]
            left_out(paths, keep).contains(p) <==> paths.contains(p) && integrity::apart(p, keep),
    decreases paths.len(),
{
    if paths.len() > 0 {
        let init = paths.drop_last();
        let last = paths.last();
        law_hides_exactly(init, keep);
        let rest = left_out(init, keep);
        let all = left_out(paths, keep);
        assert forall|p: Seq<u8>| #[trigger] all.contains(p) <==> paths.contains(p)
            && integrity::apart(p, keep) by {
            assert(rest.contains(p) <==> init.contains(p) && integrity::apart(p, keep));
            assert(paths.contains(p) <==> init.contains(p) || p == last) by {
                assert(paths[paths.len() - 1] == last);
                if init.contains(p) {
                    assert(paths[init.index_of(p)] == p);
                }
                if paths.contains(p) && p != last {
                    assert(init[paths.index_of(p)] == p);
                }
            }
            if integrity::apart(last, keep) {
                assert(all.contains(p) <==> rest.contains(p) || p == last) by {
                    assert(all[all.len() - 1] == last);
                    if rest.contains(p) {
                        assert(all[rest.index_of(p)] == p);
                    }
                    if all.contains(p) && p != last {
                        assert(rest[all.index_of(p)] == p);
                    }
                }
            }
        }
    }
}

/// The paths that an `unrun` hides: the credential paths that are not allowed,
/// and those given.
pub fn unrun_paths(home: Option<&FsPath>, allow: &Vec<FsPath>, extra: &Vec<String>) -> (r: Vec<
    FsPath,
>)
    ensures
        order::views(r@) == left_out(
            match home {
                Some(h) => under(h@, credential_names()),
                None => Seq::empty(),
            },
            order::views(allow@),
        ) + all_expanded(home_view(home), order::views(extra@)),
{
    let none: Vec<FsPath> = Vec::new();
    assert(order::views(none@) =~= Seq::<Seq<u8>>::empty());
    assert(order::views(allow@) + order::views(none@) =~= order::views(allow@));
    let usual = default_cred_paths(home);
    let mut r = paths_to_hide(usual.as_slice(), allow.as_slice(), none.as_slice());
    let mut more = normalize_all(home, extra);
    let ghost a = r@;
    let ghost b = more@;
    r.append(&mut more);
    assert(order::views(a + b) =~= order::views(a) + order::views(b));
    r
}

/// The paths that are text, as text.
pub open spec fn as_text(paths: Seq<Seq<u8>>) -> Seq<Seq<char>>
    decreases paths.len(),
{
    if paths.len() == 0 {
        Seq::empty()
    } else {
        let rest = as_text(paths.drop_last());
        if utf8::valid_utf8(paths.last()) {
            rest.push(utf8::decode_utf8(paths.last()))
        } else {
            rest
        }
    }
}

/// The setting that passes the allowed paths on to nested runs.
pub fn allow_setting(allow: &Vec<FsPath>) -> (r: String)
    ensures
        r@ == text::joined_with(as_text(order::views(allow@)), ":"@),
{
    let ghost all = order::views(allow@);
    let mut parts: Vec<String> = Vec::new();
    let mut i: usize = 0;
    assert(all.take(0) =~= Seq::<Seq<u8>>::empty());
    assert(order::views(parts@) =~= Seq::<Seq<char>>::empty());
    while i < allow.len()
        invariant
            i <= allow@.len(),
            all == order::views(allow@),
            order::views(parts@) == as_text(all.take(i as int)),
        decreases allow.len() - i,
    {
        let ghost done = parts@;
        proof {
            assert(all.take(i + 1).drop_last() =~= all.take(i as int));
            assert(all.take(i + 1).last() == allow@[i as int]@);
        }
        if let Ok(s) = std::str::from_utf8(allow[i].as_bytes()) {
            let part = s.to_owned();
            parts.push(part);
            assert(order::views(parts@) =~= order::views(done).push(part@));
        }
        i += 1;
    }
    assert(all.take(all.len() as int) =~= all);
    text::join(&parts, ":")
}

/// Whether a path can be passed on in the setting: as text, without the
/// separator, and read back as the same path.
pub open spec fn passes_on(home: Option<Seq<u8>>, p: Seq<u8>) -> bool {
    &&& utf8::valid_utf8(p)
    &&& p.len() > 0
    &&& !utf8::decode_utf8(p).contains(':')
    &&& expanded(home, utf8::decode_utf8(p)) == p
}

proof fn lemma_as_text(paths: Seq<Seq<u8>>)
    requires
        forall|i: int| 0 <= i < paths.len() ==> utf8::valid_utf8(#[trigger] paths[i]),
    ensures
        as_text(paths) == paths.map_values(|p: Seq<u8>| utf8::decode_utf8(p)),
    decreases paths.len(),
{
    let texts = paths.map_values(|p: Seq<u8>| utf8::decode_utf8(p));
    if paths.len() > 0 {
        let init = paths.drop_last();
        assert forall|i: int| 0 <= i < init.len() implies utf8::valid_utf8(#[trigger] init[i]) by {
            assert(init[i] == paths[i]);
        }
        lemma_as_text(init);
        assert(utf8::valid_utf8(paths[paths.len() - 1]));
        assert(as_text(paths) =~= texts);
    } else {
        assert(as_text(paths) =~= texts);
    }
}

proof fn lemma_filled(parts: Seq<Seq<char>>)
    requires
        forall|i: int| 0 <= i < parts.len() ==> (#[trigger] parts[i]).len() > 0,
    ensures
        filled(parts) == parts,
    decreases parts.len(),
{
    if parts.len() > 0 {
        let init = parts.drop_last();
        assert forall|i: int| 0 <= i < init.len() implies (#[trigger] init[i]).len() > 0 by {
            assert(init[i] == parts[i]);
        }
        lemma_filled(init);
        assert(parts[parts.len() - 1].len() > 0);
        assert(init.push(parts.last()) =~= parts);
    }
}

proof fn lemma_pieces_joined(parts: Seq<Seq<char>>)
    requires
        parts.len() > 0,
        forall|i: int| 0 <= i < parts.len() ==> !(#[trigger] parts[i]).contains(':'),
    ensures
        text::pieces(text::joined_with(parts, ":"@), ':') == parts,
    decreases parts.len(),
{
    reveal_strlit(":");
    let last = parts[parts.len() - 1];
    assert(!last.contains(':'));
    if parts.len() == 1 {
        text::lemma_first_index(last, ':');
        assert(text::pieces(last, ':') == seq![last]);
        assert(seq![last] =~= parts);
    } else {
        let init = parts.drop_last();
        assert forall|i: int| 0 <= i < init.len() implies !(#[trigger] init[i]).contains(':') by {
            assert(init[i] == parts[i]);
        }
        lemma_pieces_joined(init);
        let start = text::joined_with(init, ":"@);
        path::lemma_pieces_push(start, last, ':');
        assert(start + ":"@ + last =~= start.push(':') + last);
        assert(init.push(last) =~= parts);
    }
}

/// A nested run inherits exactly the paths that were allowed, if each can be
/// passed on.
pub proof fn law_allowed_paths_are_inherited(home: Option<Seq<u8>>, allow: Seq<Seq<u8>>)
    requires
        forall|i: int| 0 <= i < allow.len() ==> passes_on(home, #[trigger] allow[i]),
    ensures
        listed_paths(home, text::joined_with(as_text(allow), ":"@)) == allow,
{
    let texts = allow.map_values(|p: Seq<u8>| utf8::decode_utf8(p));
    assert forall|i: int| 0 <= i < allow.len() implies utf8::valid_utf8(#[trigger] allow[i]) by {
        assert(passes_on(home, allow[i]));
    }
    lemma_as_text(allow);
    let list = text::joined_with(texts, ":"@);
    if allow.len() == 0 {
        let none = Seq::<Seq<char>>::empty();
        assert(list == Seq::<char>::empty());
        assert(text::pieces(list, ':') == seq![list]);
        assert(seq![list].drop_last() =~= none);
        assert(filled(none) == none);
        assert(filled(seq![list]) == none);
        assert(listed_paths(home, list) =~= allow);
    } else {
        assert forall|i: int| 0 <= i < texts.len() implies !(#[trigger] texts[i]).contains(':')
            && texts[i].len() > 0 by {
            let p = allow[i];
            assert(passes_on(home, p));
            utf8::decode_utf8_encode_utf8(p);
            if texts[i].len() == 0 {
                assert(utf8::encode_utf8(texts[i]).len() == 0);
            }
        }
        lemma_pieces_joined(texts);
        lemma_filled(texts);
        assert forall|i: int| 0 <= i < allow.len() implies expanded(
            home,
            #[trigger] texts[i],
        ) == allow[i] by {
            assert(passes_on(home, allow[i]));
        }
        assert(all_expanded(home, texts) =~= allow);
    }
}

/// What a run needs of a namespace.
#[derive(Clone, Copy, Debug, PartialEq, Eq, Structural)]
pub struct RunNeeds {
    /// A private namespace, entered before anything is decrypted.
    pub namespace: bool,
    /// Credential paths masked.
    pub mask: bool,
    /// Configuration verified and frozen.
    pub freeze: bool,
}

/// What a run needs: allowing a path asks for masking, and masking as well as
/// verifying for a namespace.
pub fn run_needs(sandbox: bool, allow_given: bool, verify: bool) -> (r: RunNeeds)
    ensures
        r.mask == (sandbox || allow_given),
        r.freeze == verify,
        r.namespace == (sandbox || allow_given || verify),
{
    RunNeeds {
        namespace: sandbox || allow_given || verify,
        mask: sandbox || allow_given,
        freeze: verify,
    }
}

/// Why a baseline cannot be edited.
#[derive(Clone, Copy, Debug, PartialEq, Eq, Structural)]
pub enum TargetError {
    /// Not run as root.
    NotRoot,
    /// Nobody is named.
    Nobody,
    /// Root is named.
    Root,
}

/// Whose baseline is edited: the one named, else the one who called `sudo`, and
/// never root.
pub open spec fn target_of(
    is_root: bool,
    user: Option<Seq<char>>,
    sudo_user: Option<Seq<char>>,
) -> Result<Seq<char>, TargetError> {
    let named = if user is Some {
        user
    } else {
        sudo_user
    };
    if !is_root {
        Err(TargetError::NotRoot)
    } else if named is None {
        Err(TargetError::Nobody)
    } else if named->0 == "root"@ {
        Err(TargetError::Root)
    } else {
        Ok(named->0)
    }
}

pub open spec fn text_view(s: Option<&str>) -> Option<Seq<char>> {
    match s {
        Some(t) => Some(t@),
        None => None,
    }
}

/// Whose baseline is edited.
pub fn baseline_target(is_root: bool, user: Option<&str>, sudo_user: Option<&str>) -> (r: Result<
    String,
    TargetError,
>)
    ensures
        match r {
            Ok(u) => target_of(is_root, text_view(user), text_view(sudo_user)) == Ok::<
                Seq<char>,
                TargetError,
            >(u@),
            Err(e) => target_of(is_root, text_view(user), text_view(sudo_user)) == Err::<
                Seq<char>,
                TargetError,
            >(e),
        },
{
    if !is_root {
        return Err(TargetError::NotRoot);
    }
    let named = match user {
        Some(u) => u,
        None => match sudo_user {
            Some(u) => u,
            None => {
                return Err(TargetError::Nobody);
            },
        },
    };
    if text::same_text(named, "root") {
        return Err(TargetError::Root);
    }
    Ok(named.to_owned())
}

/// The ending of "entry" for so many of them.
pub fn entries(n: usize) -> (r: &'static str)
    ensures
        r@ == (if n == 1 {
            "y"@
        } else {
            "ies"@
        }),
{
    if n == 1 {
        "y"
    } else {
        "ies"
    }
}

/// The first of `keys` that is no valid name, with the reason.
pub fn check_keys(keys: &Vec<String>) -> (r: Result<(), (usize, KeyError)>)
    ensures
        match r {
            Ok(_) => forall|i: int| 0 <= i < keys@.len() ==> vault::valid_key((#[trigger] keys@[i])@),
            Err(p) => {
                &&& p.0 < keys@.len()
                &&& !vault::valid_key(keys@[p.0 as int]@)
                &&& p.1 == vault::key_error(keys@[p.0 as int]@)
                &&& forall|i: int| 0 <= i < p.0 ==> vault::valid_key((#[trigger] keys@[i])@)
            },
        },
{
    let mut i: usize = 0;
    while i < keys.len()
        invariant
            i <= keys@.len(),
            forall|j: int| 0 <= j < i ==> vault::valid_key((#[trigger] keys@[j])@),
        decreases keys.len() - i,
    {
        if let Err(e) = vault::validate_key(keys[i].as_str()) {
            return Err((i, e));
        }
        i += 1;
    }
    Ok(())
}

/// The entries without the first one of each key in turn, or the index of the
/// first key that there is none for.
pub open spec fn without_keys(
    entries: Seq<(Seq<char>, Seq<char>)>,
    keys: Seq<Seq<char>>,
) -> Result<Seq<(Seq<char>, Seq<char>)>, int>
    decreases keys.len(),
{
    if keys.len() == 0 {
        Ok(entries)
    } else {
        match without_keys(entries, keys.drop_last()) {
            Err(i) => Err(i),
            Ok(rest) => {
                let n = text::first_index(vault::keys(rest), keys.last());
                if n < rest.len() {
                    Ok(rest.remove(n))
                } else {
                    Err(keys.len() - 1)
                }
            },
        }
    }
}

/// Removes the first entry of each key in turn. The error is the index of a key
/// that is not there; the keys before it are removed, and nothing is to be saved.
pub fn remove_keys(vault: &mut EnvVault, keys: &Vec<String>) -> (r: Result<(), usize>)
    ensures
        match r {
            Ok(_) => without_keys(old(vault)@, order::views(keys@)) == Ok::<
                Seq<(Seq<char>, Seq<char>)>,
                int,
            >(final(vault)@),
            Err(i) => {
                &&& without_keys(old(vault)@, order::views(keys@)) == Err::<
                    Seq<(Seq<char>, Seq<char>)>,
                    int,
                >(i as int)
                &&& i < keys@.len()
                &&& without_keys(old(vault)@, order::views(keys@).take(i as int)) == Ok::<
                    Seq<(Seq<char>, Seq<char>)>,
                    int,
                >(final(vault)@)
            },
        },
{
    let ghost all = order::views(keys@);
    let mut i: usize = 0;
    assert(all.take(0) =~= Seq::<Seq<char>>::empty());
    while i < keys.len()
        invariant
            i <= keys@.len(),
            all == order::views(keys@),
            without_keys(old(vault)@, all.take(i as int)) == Ok::<
                Seq<(Seq<char>, Seq<char>)>,
                int,
            >(vault@),
        decreases keys.len() - i,
    {
        proof {
            assert(all.take(i + 1).drop_last() =~= all.take(i as int));
            assert(all.take(i + 1).last() == keys@[i as int]@);
        }
        match vault.position(keys[i].as_str()) {
            Some(n) => vault.remove_at(n),
            None => {
                proof {
                    lemma_missing_key(old(vault)@, all, i + 1, i as int);
                }
                return Err(i);
            },
        }
        i += 1;
    }
    assert(all.take(all.len() as int) =~= all);
    Ok(())
}

proof fn lemma_missing_key(
    entries: Seq<(Seq<char>, Seq<char>)>,
    keys: Seq<Seq<char>>,
    n: int,
    i: int,
)
    requires
        0 <= n <= keys.len(),
        without_keys(entries, keys.take(n)) == Err::<Seq<(Seq<char>, Seq<char>)>, int>(i),
    ensures
        without_keys(entries, keys) == Err::<Seq<(Seq<char>, Seq<char>)>, int>(i),
    decreases keys.len() - n,
{
    if n == keys.len() {
        assert(keys.take(n) =~= keys);
    } else {
        assert(keys.take(n + 1).drop_last() =~= keys.take(n));
        lemma_missing_key(entries, keys, n + 1, i);
    }
}

/// The entries of decrypted contents, if they are text.
pub fn parse_contents(plaintext: &[u8]) -> (r: Option<EnvVault>)
    ensures
        match r {
            Some(v) => utf8::valid_utf8(plaintext@) && v@ == vault::parsed(
                utf8::decode_utf8(plaintext@),
            ),
            None => !utf8::valid_utf8(plaintext@),
        },
{
    match std::str::from_utf8(plaintext) {
        Ok(t) => Some(EnvVault::parse(t)),
        Err(_) => None,
    }
}

/// What is written of entries with clean keys is read back as the same entries.
pub proof fn law_contents_read_back(entries: Seq<(Seq<char>, Seq<char>)>)
    requires
        forall|i: int| 0 <= i < entries.len() ==> vault::clean_key((#[trigger] entries[i]).0),
    ensures
        utf8::valid_utf8(utf8::encode_utf8(vault::serialized(entries))),
        vault::parsed(utf8::decode_utf8(utf8::encode_utf8(vault::serialized(entries)))) == entries,
{
    utf8::encode_utf8_valid_utf8(vault::serialized(entries));
    utf8::encode_utf8_decode_utf8(vault::serialized(entries));
    vault::law_parse_serialized(entries);
}

/// What to say where there is no vault of a name.
pub fn missing_vault(name: &str, available: &Vec<String>) -> (r: String)
    ensures
        r@ == (if available@.len() == 0 {
            "no vault named '"@ + name@
                + "' (no vaults exist yet — create one with `envvault init "@ + name@ + "`)"@
        } else {
            "no vault named '"@ + name@ + "'. Available: "@ + text::joined_with(
                order::views(available@),
                ", "@,
            )
        }),
{
    let mut r = String::new();
    r.append("no vault named '");
    r.append(name);
    if available.len() == 0 {
        r.append("' (no vaults exist yet — create one with `envvault init ");
        r.append(name);
        r.append("`)");
        assert(r@ =~= "no vault named '"@ + name@
            + "' (no vaults exist yet — create one with `envvault init "@ + name@ + "`)"@);
    } else {
        r.append("'. Available: ");
        r.append(text::join(available, ", ").as_str());
        assert(r@ =~= "no vault named '"@ + name@ + "'. Available: "@ + text::joined_with(
            order::views(available@),
            ", "@,
        ));
    }
    r
}

/// What to say where there is no directory vault of a name.
pub fn missing_dirvault(name: &str, available: &Vec<String>) -> (r: String)
    ensures
        r@ == (if available@.len() == 0 {
            "no directory vault named '"@ + name@ + "' (create one with `envvault dir init "@
                + name@ + " --path <dir>`)"@
        } else {
            "no directory vault named '"@ + name@ + "'. Available: "@ + text::joined_with(
                order::views(available@),
                ", "@,
            )
        }),
{
    let mut r = String::new();
    r.append("no directory vault named '");
    r.append(name);
    if available.len() == 0 {
        r.append("' (create one with `envvault dir init ");
        r.append(name);
        r.append(" --path <dir>`)");
        assert(r@ =~= "no directory vault named '"@ + name@
            + "' (create one with `envvault dir init "@ + name@ + " --path <dir>`)"@);
    } else {
        r.append("'. Available: ");
        r.append(text::join(available, ", ").as_str());
        assert(r@ =~= "no directory vault named '"@ + name@ + "'. Available: "@
            + text::joined_with(order::views(available@), ", "@));
    }
    r
}

/// How a list shows a vault's version.
pub fn tier(version: Option<u8>) -> (r: &'static str)
    ensures
        r@ == (if version == Some(2u8) {
            "v2"@
        } else if version == Some(1u8) {
            "v1 (legacy — `envvault upgrade {name}`)"@
        } else {
            "?"@
        }),
{
    match version {
        Some(2) => "v2",
        Some(1) => "v1 (legacy — `envvault upgrade {name}`)",
        _ => "?",
    }
}

/// How a list shows a directory vault's version.
pub fn dir_tier(version: Option<u8>) -> (r: &'static str)
    ensures
        r@ == (if version == Some(2u8) {
            "v2"@
        } else if version == Some(1u8) {
            "v1 (legacy — `envvault dir upgrade {name}`)"@
        } else {
            "?"@
        }),
{
    match version {
        Some(2) => "v2",
        Some(1) => "v1 (legacy — `envvault dir upgrade {name}`)",
        _ => "?",
    }
}

/// The most bytes that any of the names takes.
pub open spec fn widest(names: Seq<Seq<char>>) -> nat
    decreases names.len(),
{
    if names.len() == 0 {
        0
    } else {
        let rest = widest(names.drop_last());
        let last = utf8::encode_utf8(names.last()).len();
        if last > rest {
            last
        } else {
            rest
        }
    }
}

/// The most bytes that any of the names takes: the width of a list's first
/// column.
pub fn column_width(names: &Vec<String>) -> (r: usize)
    ensures
        r == widest(order::views(names@)),
{
    let ghost all = order::views(names@);
    let mut w: usize = 0;
    let mut i: usize = 0;
    assert(all.take(0) =~= Seq::<Seq<char>>::empty());
    while i < names.len()
        invariant
            i <= names@.len(),
            all == order::views(names@),
            w == widest(all.take(i as int)),
        decreases names.len() - i,
    {
        let n = names[i].as_str().as_bytes().len();
        proof {
            assert(all.take(i + 1).drop_last() =~= all.take(i as int));
            assert(all.take(i + 1).last() == names@[i as int]@);
        }
        if n > w {
            w = n;
        }
        i += 1;
    }
    assert(all.take(all.len() as int) =~= all);
    w
}

/// A line of a list: the name, filled up to the width, and the tier.
pub open spec fn list_line(name: Seq<char>, width: nat, shown: Seq<char>) -> Seq<char> {
    let gap = if name.len() < width {
        (width - name.len()) as nat
    } else {
        0
    };
    name + Seq::new(gap, |i: int| ' ') + "  "@ + shown
}

/// A line of a list.
pub fn list_row(name: &str, width: usize, shown: &str) -> (r: String)
    ensures
        r@ == list_line(name@, width as nat, shown@),
{
    let chars = text::chars_of(name);
    let mut r = String::new();
    r.append(name);
    let mut n: usize = chars.len();
    assert(r@ =~= name@ + Seq::new(0, |i: int| ' '));
    while n < width
        invariant
            name@.len() <= n,
            n <= width || n == name@.len(),
            r@ == name@ + Seq::new((n - name@.len()) as nat, |i: int| ' '),
        decreases width - n,
    {
        r.push(' ');
        n += 1;
        assert(r@ =~= name@ + Seq::new((n - name@.len()) as nat, |i: int| ' '));
    }
    r.append("  ");
    r.append(shown);
    assert(r@ =~= list_line(name@, width as nat, shown@));
    r
}

/// What to say once keys were set.
pub fn updated_text(n: usize, clipboard: bool) -> (r: String)
    ensures
        r@ == "Updated "@ + text::decimal(n as nat) + (if n == 1 {
            " entry"@
        } else {
            " entries"@
        }) + (if clipboard {
            " — clipboard cleared"@
        } else {
            Seq::<char>::empty()
        }),
{
    let mut r = String::new();
    r.append("Updated ");
    text::push_decimal(&mut r, n as u64);
    if n == 1 {
        r.append(" entry");
    } else {
        r.append(" entries");
    }
    if clipboard {
        r.append(" — clipboard cleared");
    }
    assert(r@ =~= "Updated "@ + text::decimal(n as nat) + (if n == 1 {
        " entry"@
    } else {
        " entries"@
    }) + (if clipboard {
        " — clipboard cleared"@
    } else {
        Seq::<char>::empty()
    }));
    r
}

/// Whether a new vault is opened in the editor.
pub fn opens_editor(no_edit: bool, password_stdin: bool, is_terminal: bool) -> (r: bool)
    ensures
        r == (!no_edit && !password_stdin && is_terminal),
{
    !no_edit && !password_stdin && is_terminal
}

/// Whether an answer says yes.
pub fn says_yes(answer: &str) -> (r: bool)
    ensures
        r == (text::trimmed(answer@) == "y"@ || text::trimmed(answer@) == "Y"@ || text::trimmed(
            answer@,
        ) == "yes"@),
{
    let chars = text::chars_of(answer);
    let given = text::string_of(text::trim(chars.as_slice()));
    let given = given.as_str();
    text::same_text(given, "y") || text::same_text(given, "Y") || text::same_text(given, "yes")
}

/// What is to be done next to turn a path into a directory vault.
#[derive(Clone, Copy, Debug, PartialEq, Eq, Structural)]
pub enum InitStep {
    /// Make sure that there is no such vault yet.
    CheckVault,
    /// Find the target and resolve its path.
    FindTarget,
    /// See what the target is.
    Classify,
    /// Make sure that no other file system is mounted in the directory.
    CheckMounts,
    /// Ask whether to go on.
    Confirm(bool),
    /// Get the password; whether the target is a directory is kept.
    Password(bool),
    /// Pack, encrypt, write and verify the vault.
    Create(bool),
    /// Empty the target.
    Empty(bool),
    /// Nothing: the vault holds what the target held.
    Done(bool),
    /// Nothing: give up, with the target as it was.
    Refused,
    /// Nothing: the vault is there, but the target could not be emptied.
    NotEmptied,
}

/// What a step came to.
#[derive(Clone, Copy, Debug, PartialEq, Eq, Structural)]
pub enum InitOutcome {
    Good,
    Failed,
    /// The target is a directory.
    Directory,
    /// The target is a regular file.
    RegularFile,
}

/// What was asked for.
#[derive(Clone, Copy, Debug, PartialEq, Eq, Structural)]
pub struct InitPlan {
    /// Do not ask before emptying the target.
    pub yes: bool,
    /// The password comes from standard input, so nobody can be asked.
    pub password_stdin: bool,
}

/// The step before anything is destroyed: ask, unless told not to, and refuse
/// where nobody can be asked.
pub open spec fn asking(plan: InitPlan, is_dir: bool) -> InitStep {
    if plan.yes {
        InitStep::Password(is_dir)
    } else if plan.password_stdin {
        InitStep::Refused
    } else {
        InitStep::Confirm(is_dir)
    }
}

pub open spec fn init_following(plan: InitPlan, step: InitStep, o: InitOutcome) -> InitStep {
    match step {
        InitStep::CheckVault => if o == InitOutcome::Good {
            InitStep::FindTarget
        } else {
            InitStep::Refused
        },
        InitStep::FindTarget => if o == InitOutcome::Good {
            InitStep::Classify
        } else {
            InitStep::Refused
        },
        InitStep::Classify => match o {
            InitOutcome::Directory => InitStep::CheckMounts,
            InitOutcome::RegularFile => asking(plan, false),
            _ => InitStep::Refused,
        },
        InitStep::CheckMounts => if o == InitOutcome::Good {
            asking(plan, true)
        } else {
            InitStep::Refused
        },
        InitStep::Confirm(d) => if o == InitOutcome::Good {
            InitStep::Password(d)
        } else {
            InitStep::Refused
        },
        InitStep::Password(d) => if o == InitOutcome::Good {
            InitStep::Create(d)
        } else {
            InitStep::Refused
        },
        InitStep::Create(d) => if o == InitOutcome::Good {
            InitStep::Empty(d)
        } else {
            InitStep::Refused
        },
        InitStep::Empty(d) => if o == InitOutcome::Good {
            InitStep::Done(d)
        } else {
            InitStep::NotEmptied
        },
        _ => step,
    }
}

/// The first step.
pub fn init_first() -> (r: InitStep)
    ensures
        r == InitStep::CheckVault,
{
    InitStep::CheckVault
}

/// The step to take after what `step` came to.
pub fn init_next(plan: InitPlan, step: InitStep, o: InitOutcome) -> (r: InitStep)
    ensures
        r == init_following(plan, step, o),
{
    let ok = match o {
        InitOutcome::Good => true,
        _ => false,
    };
    match step {
        InitStep::Classify => match o {
            InitOutcome::Directory => InitStep::CheckMounts,
            InitOutcome::RegularFile => init_ask(plan, false),
            _ => InitStep::Refused,
        },
        InitStep::Empty(d) => if ok {
            InitStep::Done(d)
        } else {
            InitStep::NotEmptied
        },
        InitStep::Done(d) => InitStep::Done(d),
        InitStep::NotEmptied => InitStep::NotEmptied,
        InitStep::Refused => InitStep::Refused,
        _ if !ok => InitStep::Refused,
        InitStep::CheckVault => InitStep::FindTarget,
        InitStep::FindTarget => InitStep::Classify,
        InitStep::CheckMounts => init_ask(plan, true),
        InitStep::Confirm(d) => InitStep::Password(d),
        InitStep::Password(d) => InitStep::Create(d),
        InitStep::Create(d) => InitStep::Empty(d),
    }
}

fn init_ask(plan: InitPlan, is_dir: bool) -> (r: InitStep)
    ensures
        r == asking(plan, is_dir),
{
    if plan.yes {
        InitStep::Password(is_dir)
    } else if plan.password_stdin {
        InitStep::Refused
    } else {
        InitStep::Confirm(is_dir)
    }
}

/// What was done so far.
pub struct InitState {
    pub step: InitStep,
    /// Whether the target was found to be a directory.
    pub is_dir: bool,
    /// Whether the directory was found to hold no mount point.
    pub mounts_checked: bool,
    /// Whether the user said yes.
    pub confirmed: bool,
    /// Whether the vault was written and verified.
    pub created: bool,
    /// Whether something of the target may have been removed.
    pub touched: bool,
}

pub open spec fn init_ran(plan: InitPlan, outcomes: Seq<InitOutcome>) -> InitState
    decreases outcomes.len(),
{
    if outcomes.len() == 0 {
        InitState {
            step: InitStep::CheckVault,
            is_dir: false,
            mounts_checked: false,
            confirmed: false,
            created: false,
            touched: false,
        }
    } else {
        let b = init_ran(plan, outcomes.drop_last());
        let o = outcomes.last();
        InitState {
            step: init_following(plan, b.step, o),
            is_dir: b.is_dir || (b.step == InitStep::Classify && o == InitOutcome::Directory),
            mounts_checked: b.mounts_checked || (b.step == InitStep::CheckMounts && o
                == InitOutcome::Good),
            confirmed: b.confirmed || (b.step is Confirm && o == InitOutcome::Good),
            created: b.created || (b.step is Create && o == InitOutcome::Good),
            touched: b.touched || b.step is Empty,
        }
    }
}

pub open spec fn init_stage(step: InitStep) -> int {
    match step {
        InitStep::CheckVault => 0,
        InitStep::FindTarget => 1,
        InitStep::Classify => 2,
        InitStep::CheckMounts => 3,
        InitStep::Confirm(_) => 4,
        InitStep::Password(_) => 5,
        InitStep::Create(_) => 6,
        InitStep::Empty(_) => 7,
        InitStep::Done(_) => 8,
        InitStep::NotEmptied => 9,
        InitStep::Refused => 10,
    }
}

proof fn lemma_init(plan: InitPlan, outcomes: Seq<InitOutcome>)
    ensures
        ({
            let s = init_ran(plan, outcomes);
            let n = init_stage(s.step);
            &&& s.touched ==> n == 8 || n == 9
            &&& 3 < n < 10 && s.is_dir ==> s.mounts_checked
            &&& 4 < n < 10 ==> plan.yes || s.confirmed
            &&& 6 < n < 10 ==> s.created
            &&& n < 3 ==> !s.is_dir
        }),
    decreases outcomes.len(),
{
    if outcomes.len() > 0 {
        lemma_init(plan, outcomes.drop_last());
    }
}

/// The target is touched only once the vault was written and verified, the user
/// has agreed or waived being asked, and a directory was found to hold no mount
/// point. A run that gives up leaves the target as it was.
pub proof fn law_target_survives_until_saved(plan: InitPlan, outcomes: Seq<InitOutcome>)
    ensures
        ({
            let s = init_ran(plan, outcomes);
            &&& s.touched || s.step is Empty ==> {
                &&& s.created
                &&& plan.yes || s.confirmed
                &&& s.is_dir ==> s.mounts_checked
            }
            &&& s.step == InitStep::Refused ==> !s.touched
        }),
{
    lemma_init(plan, outcomes);
}

/// Removing a key that is there takes out its first entry and nothing else; a key
/// that is not there is refused.
pub proof fn law_removing_takes_out_the_first(
    entries: Seq<(Seq<char>, Seq<char>)>,
    key: Seq<char>,
    i: int,
)
    requires
        0 <= i <= entries.len(),
        i < entries.len() ==> entries[i].0 == key,
        forall|j: int| 0 <= j < i ==> (#[trigger] entries[j]).0 != key,
    ensures
        i < entries.len() ==> without_keys(entries, seq![key]) == Ok::<
            Seq<(Seq<char>, Seq<char>)>,
            int,
        >(entries.take(i) + entries.skip(i + 1)),
        i == entries.len() ==> without_keys(entries, seq![key]) == Err::<
            Seq<(Seq<char>, Seq<char>)>,
            int,
        >(0),
{
    let ks = vault::keys(entries);
    assert(seq![key].drop_last() =~= Seq::<Seq<char>>::empty());
    assert(without_keys(entries, Seq::empty()) == Ok::<Seq<(Seq<char>, Seq<char>)>, int>(entries));
    assert forall|j: int| 0 <= j < i implies ks[j] != key by {
        assert(entries[j].0 != key);
    }
    text::lemma_first_index_unique(ks, key, i);
    if i < entries.len() {
        assert(entries.remove(i) =~= entries.take(i) + entries.skip(i + 1));
    }
}

/// Keys are removed one after the other, each from what the ones before it left;
/// the first that is not there is told by its place.
pub proof fn law_keys_are_removed_in_turn(
    entries: Seq<(Seq<char>, Seq<char>)>,
    keys: Seq<Seq<char>>,
    key: Seq<char>,
)
    ensures
        without_keys(entries, keys.push(key)) == (match without_keys(entries, keys) {
            Err(i) => Err::<Seq<(Seq<char>, Seq<char>)>, int>(i),
            Ok(rest) => match without_keys(rest, seq![key]) {
                Ok(after) => Ok::<Seq<(Seq<char>, Seq<char>)>, int>(after),
                Err(_) => Err::<Seq<(Seq<char>, Seq<char>)>, int>(keys.len() as int),
            },
        }),
        without_keys(entries, Seq::empty()) == Ok::<Seq<(Seq<char>, Seq<char>)>, int>(entries),
{
    assert(keys.push(key).drop_last() =~= keys);
    if let Ok(rest) = without_keys(entries, keys) {
        assert(seq![key].drop_last() =~= Seq::<Seq<char>>::empty());
        assert(without_keys(rest, Seq::empty()) == Ok::<Seq<(Seq<char>, Seq<char>)>, int>(rest));
    }
}

proof fn lemma_remove_is_filter(s: Seq<(Seq<char>, Seq<char>)>, n: int, k: Seq<char>)
    requires
        0 <= n < s.len(),
        s[n].0 == k,
        forall|i: int, j: int| 0 <= i < j < s.len() ==> (#[trigger] s[i]).0 != (#[trigger] s[j]).0,
    ensures
        s.remove(n) == s.filter(|e: (Seq<char>, Seq<char>)| e.0 != k),
    decreases s.len(),
{
    let other = |e: (Seq<char>, Seq<char>)| e.0 != k;
    let init = s.drop_last();
    reveal(Seq::filter);
    assert forall|i: int, j: int| 0 <= i < j < init.len() implies (#[trigger] init[i]).0 != (
    #[trigger] init[j]).0 by {
        assert(init[i] == s[i] && init[j] == s[j]);
    }
    if n == s.len() - 1 {
        assert forall|i: int| 0 <= i < init.len() implies other(#[trigger] init[i]) by {
            assert(init[i] == s[i]);
            assert(s[i].0 != s[n].0);
        }
        order::lemma_filter_all(init, other);
        assert(s.remove(n) =~= init);
    } else {
        assert(init[n] == s[n]);
        lemma_remove_is_filter(init, n, k);
        assert(s[n].0 != s[s.len() - 1].0);
        assert(s.remove(n) =~= init.remove(n).push(s.last()));
    }
}

/// Where no key occurs twice, removing keys leaves exactly the entries of the
/// other keys, in their order.
pub proof fn law_only_removed_keys_are_gone(
    entries: Seq<(Seq<char>, Seq<char>)>,
    keys: Seq<Seq<char>>,
)
    requires
        forall|i: int, j: int|
            0 <= i < j < entries.len() ==> (#[trigger] entries[i]).0 != (#[trigger] entries[j]).0,
        without_keys(entries, keys) is Ok,
    ensures
        without_keys(entries, keys)->Ok_0 == entries.filter(
            |e: (Seq<char>, Seq<char>)| !keys.contains(e.0),
        ),
    decreases keys.len(),
{
    let kept = |e: (Seq<char>, Seq<char>)| !keys.contains(e.0);
    if keys.len() == 0 {
        order::lemma_filter_all(entries, kept);
    } else {
        let init = keys.drop_last();
        let key = keys.last();
        let before = |e: (Seq<char>, Seq<char>)| !init.contains(e.0);
        law_only_removed_keys_are_gone(entries, init);
        let rest = without_keys(entries, init)->Ok_0;
        let n = text::first_index(vault::keys(rest), key);
        text::lemma_first_index(vault::keys(rest), key);
        assert(rest[n].0 == key);
        assert forall|i: int, j: int| 0 <= i < j < rest.len() implies (#[trigger] rest[i]).0 != (
        #[trigger] rest[j]).0 by {
            lemma_filter_distinct(entries, before, i, j);
        }
        lemma_remove_is_filter(rest, n, key);
        let other = |e: (Seq<char>, Seq<char>)| e.0 != key;
        order::lemma_filter_twice(entries, before, other);
        let both = |e: (Seq<char>, Seq<char>)| before(e) && other(e);
        assert forall|i: int| 0 <= i < entries.len() implies both(#[trigger] entries[i]) == kept(
            entries[i],
        ) by {
            let k = entries[i].0;
            assert(keys.contains(k) <==> init.contains(k) || k == key) by {
                assert(keys[keys.len() - 1] == key);
                if init.contains(k) {
                    assert(keys[init.index_of(k)] == k);
                }
                if keys.contains(k) && k != key {
                    assert(init[keys.index_of(k)] == k);
                }
            }
        }
        order::lemma_filter_same(entries, both, kept);
    }
}

proof fn lemma_filter_distinct(
    s: Seq<(Seq<char>, Seq<char>)>,
    keep: spec_fn((Seq<char>, Seq<char>)) -> bool,
    i: int,
    j: int,
)
    requires
        forall|i: int, j: int| 0 <= i < j < s.len() ==> (#[trigger] s[i]).0 != (#[trigger] s[j]).0,
        0 <= i < j < s.filter(keep).len(),
    ensures
        s.filter(keep)[i].0 != s.filter(keep)[j].0,
    decreases s.len(),
{
    reveal(Seq::filter);
    let init = s.drop_last();
    assert forall|i: int, j: int| 0 <= i < j < init.len() implies (#[trigger] init[i]).0 != (
    #[trigger] init[j]).0 by {
        assert(init[i] == s[i] && init[j] == s[j]);
    }
    if j < init.filter(keep).len() {
        lemma_filter_distinct(init, keep, i, j);
    } else {
        let k = order::lemma_filter_index(init, keep, i);
        assert(s[k].0 != s[s.len() - 1].0);
    }
}

/// The steps of turning a target into a vault when all goes well.
pub open spec fn init_plan_steps(plan: InitPlan, is_dir: bool) -> Seq<InitStep> {
    let look = if is_dir {
        seq![
            InitStep::CheckVault,
            InitStep::FindTarget,
            InitStep::Classify,
            InitStep::CheckMounts,
        ]
    } else {
        seq![InitStep::CheckVault, InitStep::FindTarget, InitStep::Classify]
    };
    let ask = if plan.yes {
        Seq::empty()
    } else {
        seq![InitStep::Confirm(is_dir)]
    };
    look + ask + seq![
        InitStep::Password(is_dir),
        InitStep::Create(is_dir),
        InitStep::Empty(is_dir),
        InitStep::Done(is_dir),
    ]
}

/// What each step comes to when all goes well: the target is found to be a directory
/// or a regular file, and everything else is good.
pub open spec fn goes_well(is_dir: bool, i: int, o: InitOutcome) -> bool {
    o == (if i != 2 {
        InitOutcome::Good
    } else if is_dir {
        InitOutcome::Directory
    } else {
        InitOutcome::RegularFile
    })
}

proof fn lemma_init_plan(plan: InitPlan, is_dir: bool, i: int)
    requires
        plan.yes || !plan.password_stdin,
        0 <= i < init_plan_steps(plan, is_dir).len() - 1,
    ensures
        init_plan_steps(plan, is_dir)[0] == InitStep::CheckVault,
        forall|o: InitOutcome| #[trigger]
            goes_well(is_dir, i, o) ==> init_following(
                plan,
                init_plan_steps(plan, is_dir)[i],
                o,
            ) == init_plan_steps(plan, is_dir)[i + 1],
        i != 2 ==> forall|o: InitOutcome|
            o != InitOutcome::Good ==> #[trigger] init_following(
                plan,
                init_plan_steps(plan, is_dir)[i],
                o,
            ) == (if init_plan_steps(plan, is_dir)[i] is Empty {
                InitStep::NotEmptied
            } else {
                InitStep::Refused
            }),
{
    let p = init_plan_steps(plan, is_dir);
    assert(p[0] == InitStep::CheckVault);
    assert(p[1] == InitStep::FindTarget);
    assert(p[2] == InitStep::Classify);
    if is_dir {
        assert(p[3] == InitStep::CheckMounts);
    }
}

/// Turning a target into a vault, when all goes well, looks for a vault of that name
/// and for the target, sees what it is, looks for mounts in a directory, asks unless
/// told not to, gets the password, makes the vault, empties the target, and is done.
pub proof fn law_good_init_goes_by_plan(
    plan: InitPlan,
    is_dir: bool,
    outcomes: Seq<InitOutcome>,
)
    requires
        plan.yes || !plan.password_stdin,
        forall|i: int| 0 <= i < outcomes.len() ==> goes_well(is_dir, i, #[trigger] outcomes[i]),
    ensures
        init_ran(plan, outcomes).step == (if outcomes.len() < init_plan_steps(plan, is_dir).len() {
            init_plan_steps(plan, is_dir)[outcomes.len() as int]
        } else {
            InitStep::Done(is_dir)
        }),
    decreases outcomes.len(),
{
    let p = init_plan_steps(plan, is_dir);
    assert(p.len() >= 7);
    assert(p[p.len() - 1] == InitStep::Done(is_dir));
    lemma_init_plan(plan, is_dir, 0);
    if outcomes.len() > 0 {
        let init = outcomes.drop_last();
        let n = init.len() as int;
        assert forall|i: int| 0 <= i < init.len() implies goes_well(
            is_dir,
            i,
            #[trigger] init[i],
        ) by {
            assert(init[i] == outcomes[i]);
        }
        law_good_init_goes_by_plan(plan, is_dir, init);
        assert(goes_well(is_dir, n, outcomes[n]));
        if n < p.len() - 1 {
            lemma_init_plan(plan, is_dir, n);
        }
    }
}

/// A step that goes wrong refuses the target, which stays as it was, from then on;
/// only where the target cannot be emptied the vault is there already.
pub proof fn law_bad_init_is_refused(
    plan: InitPlan,
    is_dir: bool,
    outcomes: Seq<InitOutcome>,
    k: int,
)
    requires
        plan.yes || !plan.password_stdin,
        0 <= k < outcomes.len(),
        k < init_plan_steps(plan, is_dir).len() - 1,
        forall|i: int| 0 <= i < k ==> goes_well(is_dir, i, #[trigger] outcomes[i]),
        outcomes[k] == InitOutcome::Failed || (k != 2 && outcomes[k] != InitOutcome::Good),
    ensures
        init_ran(plan, outcomes).step == (if init_plan_steps(plan, is_dir)[k] is Empty {
            InitStep::NotEmptied
        } else {
            InitStep::Refused
        }),
    decreases outcomes.len(),
{
    let init = outcomes.drop_last();
    let p = init_plan_steps(plan, is_dir);
    if outcomes.len() == k + 1 {
        assert forall|i: int| 0 <= i < init.len() implies goes_well(
            is_dir,
            i,
            #[trigger] init[i],
        ) by {
            assert(init[i] == outcomes[i]);
        }
        law_good_init_goes_by_plan(plan, is_dir, init);
        lemma_init_plan(plan, is_dir, k);
        assert(p[2] == InitStep::Classify);
        assert(init_ran(plan, outcomes).step == init_following(plan, p[k], outcomes[k]));
    } else {
        assert forall|i: int| 0 <= i < k implies goes_well(is_dir, i, #[trigger] init[i]) by {
            assert(init[i] == outcomes[i]);
        }
        assert(init[k] == outcomes[k]);
        law_bad_init_is_refused(plan, is_dir, init, k);
    }
}

/// Where the password comes from standard input nobody can be asked: without leave to
/// go on, the target is refused before anything is done.
pub proof fn law_unasked_init_is_refused(plan: InitPlan, outcomes: Seq<InitOutcome>)
    requires
        !plan.yes,
        plan.password_stdin,
    ensures
        init_ran(plan, outcomes).step == InitStep::CheckVault || init_ran(plan, outcomes).step
            == InitStep::FindTarget || init_ran(plan, outcomes).step == InitStep::Classify
            || init_ran(plan, outcomes).step == InitStep::CheckMounts || init_ran(
            plan,
            outcomes,
        ).step == InitStep::Refused,
    decreases outcomes.len(),
{
    if outcomes.len() > 0 {
        law_unasked_init_is_refused(plan, outcomes.drop_last());
    }
}

/// `~/` stands for the home directory, and only at the beginning of a text and where
/// there is a home; any other text is a path as it is written.
pub proof fn law_tilde_is_home(home: Seq<u8>, rest: Seq<char>, s: Seq<char>)
    ensures
        expanded(Some(home), seq!['~', '/'] + rest) == path::joined(home, utf8::encode_utf8(rest)),
        expanded(None, s) == utf8::encode_utf8(s),
        !(s.len() >= 2 && s[0] == '~' && s[1] == '/') ==> expanded(Some(home), s)
            == utf8::encode_utf8(s),
{
    reveal_strlit("~/");
    assert("~/"@ =~= seq!['~', '/']);
    let all = seq!['~', '/'] + rest;
    assert(all.take(2) =~= "~/"@);
    assert(all.skip(2) =~= rest);
    text::law_beginning(all, "~/"@);
    text::law_beginning(s, "~/"@);
    if text::begins_with(s, "~/"@) {
        assert(s.take(2)[0] == '~' && s.take(2)[1] == '/');
    }
}

/// Every one of these places in a home directory is hidden unless it is allowed.
pub proof fn law_credentials_are_hidden(home: Seq<u8>, allow: Seq<Seq<u8>>, name: Seq<char>)
    requires
        name == ".ssh"@ || name == ".aws"@ || name == ".config/gh"@ || name == ".config/gcloud"@
            || name == ".azure"@ || name == ".kube"@ || name == ".gnupg"@ || name == ".config/op"@
            || name == ".terraform.d"@ || name == ".config/envvault"@ || name == ".npmrc"@ || name
            == ".pypirc"@ || name == ".netrc"@ || name == ".git-credentials"@ || name
            == ".docker/config.json"@ || name == ".cargo/credentials.toml"@ || name
            == ".databrickscfg"@,
        forall|i: int|
            0 <= i < allow.len() ==> path::steps(path::joined(home, utf8::encode_utf8(name)))
                != path::steps(#[trigger] allow[i]),
    ensures
        left_out(under(home, credential_names()), allow).contains(
            path::joined(home, utf8::encode_utf8(name)),
        ),
{
    let p = path::joined(home, utf8::encode_utf8(name));
    let names = credential_names();
    let all = under(home, names);
    law_hides_exactly(all, allow);
    assert(names.contains(name)) by {
        assert(name == names[0] || name == names[1] || name == names[2] || name == names[3] || name
            == names[4] || name == names[5] || name == names[6] || name == names[7] || name
            == names[8] || name == names[9] || name == names[10] || name == names[11] || name
            == names[12] || name == names[13] || name == names[14] || name == names[15] || name
            == names[16]);
    }
    let i = names.index_of(name);
    assert(all[i] == p);
    assert forall|j: int| 0 <= j < allow.len() implies !path::same(p, #[trigger] allow[j]) by {
        path::law_paths_are_compared_by_steps(p, allow[j]);
    }
}

/// Every one of these places in a home directory is among those that a baseline
/// tracks, and so is whatever is added.
pub proof fn law_trusted_places_are_tracked(
    home: Seq<u8>,
    add: Seq<Seq<char>>,
    name: Seq<char>,
    i: int,
)
    requires
        name == ".gitconfig"@ || name == ".curlrc"@ || name == ".wgetrc"@ || name == ".npmrc"@
            || name == ".netrc"@ || name == ".config/pip/pip.conf"@ || name == ".pki"@,
        0 <= i < add.len(),
    ensures
        ({
            let all = under(home, trust_names()) + all_expanded(Some(home), add);
            &&& all.contains(path::joined(home, utf8::encode_utf8(name)))
            &&& all[all.len() - add.len() + i] == expanded(Some(home), add[i])
        }),
{
    let names = trust_names();
    assert(names.contains(name)) by {
        assert(name == names[0] || name == names[1] || name == names[2] || name == names[3] || name
            == names[4] || name == names[5] || name == names[6]);
    }
    let n = names.index_of(name);
    let all = under(home, names) + all_expanded(Some(home), add);
    assert(all[n] == path::joined(home, utf8::encode_utf8(name)));
}

proof fn lemma_filled_concat(a: Seq<Seq<char>>, b: Seq<Seq<char>>)
    ensures
        filled(a + b) == filled(a) + filled(b),
    decreases b.len(),
{
    if b.len() == 0 {
        assert(a + b =~= a);
        assert(filled(a) + filled(b) =~= filled(a));
    } else {
        lemma_filled_concat(a, b.drop_last());
        assert((a + b).drop_last() =~= a + b.drop_last());
        assert(filled(a + b) =~= filled(a) + filled(b));
    }
}

/// A list of paths is read piece by piece: what stands before a colon is one path, or
/// none if it is empty, and the rest follows.
pub proof fn law_lists_are_read_by_pieces(home: Option<Seq<u8>>, name: Seq<char>, rest: Seq<char>)
    requires
        !name.contains(':'),
    ensures
        listed_paths(home, name) == (if name.len() == 0 {
            Seq::<Seq<u8>>::empty()
        } else {
            seq![expanded(home, name)]
        }),
        listed_paths(home, name + seq![':'] + rest) == listed_paths(home, name) + listed_paths(
            home,
            rest,
        ),
{
    text::law_pieces(name, ':', rest);
    let one = seq![name];
    let more = text::pieces(rest, ':');
    let none = Seq::<Seq<char>>::empty();
    assert(one.drop_last() =~= none);
    assert(filled(none) =~= none);
    assert(filled(one) =~= (if name.len() == 0 {
        Seq::<Seq<char>>::empty()
    } else {
        one
    }));
    lemma_filled_concat(one, more);
    assert(all_expanded(home, filled(one)) =~= (if name.len() == 0 {
        Seq::<Seq<u8>>::empty()
    } else {
        seq![expanded(home, name)]
    }));
    assert(all_expanded(home, filled(one) + filled(more)) =~= all_expanded(home, filled(one))
        + all_expanded(home, filled(more)));
}

/// What is hidden of two lists is what is hidden of each, in order; a path is left
/// alone exactly if it leads where one of `keep` leads.
pub proof fn law_hidden_in_order(
    a: Seq<Seq<u8>>,
    b: Seq<Seq<u8>>,
    p: Seq<u8>,
    keep: Seq<Seq<u8>>,
)
    ensures
        left_out(a + b, keep) == left_out(a, keep) + left_out(b, keep),
        left_out(seq![p], keep) == (if exists|i: int|
            0 <= i < keep.len() && path::steps(p) == path::steps(#[trigger] keep[i]) {
            Seq::<Seq<u8>>::empty()
        } else {
            seq![p]
        }),
    decreases b.len(),
{
    assert(seq![p].drop_last() =~= Seq::<Seq<u8>>::empty());
    assert(integrity::apart(p, keep) <==> !(exists|i: int|
        0 <= i < keep.len() && path::steps(p) == path::steps(#[trigger] keep[i]))) by {
        assert forall|i: int| 0 <= i < keep.len() implies path::same(p, #[trigger] keep[i]) == (
        path::steps(p) == path::steps(keep[i])) by {
            path::law_paths_are_compared_by_steps(p, keep[i]);
        }
    }
    assert(left_out(Seq::<Seq<u8>>::empty(), keep) =~= Seq::<Seq<u8>>::empty());
    assert(left_out(seq![p], keep) =~= (if integrity::apart(p, keep) {
        seq![p]
    } else {
        Seq::<Seq<u8>>::empty()
    }));
    if b.len() == 0 {
        assert(a + b =~= a);
        assert(left_out(a, keep) + left_out(b, keep) =~= left_out(a, keep));
    } else {
        law_hidden_in_order(a, b.drop_last(), p, keep);
        assert((a + b).drop_last() =~= a + b.drop_last());
        assert(left_out(a + b, keep) =~= left_out(a, keep) + left_out(b, keep));
    }
}

/// The texts that are passed on are those of the paths in order, without the paths
/// that are no text.
pub proof fn law_texts_are_passed_on(a: Seq<Seq<u8>>, b: Seq<Seq<u8>>, t: Seq<char>, p: Seq<u8>)
    ensures
        as_text(a + b) == as_text(a) + as_text(b),
        as_text(seq![utf8::encode_utf8(t)]) == seq![t],
        !utf8::valid_utf8(p) ==> as_text(seq![p]) == Seq::<Seq<char>>::empty(),
    decreases b.len(),
{
    utf8::encode_utf8_valid_utf8(t);
    utf8::encode_utf8_decode_utf8(t);
    assert(seq![p].drop_last() =~= Seq::<Seq<u8>>::empty());
    assert(seq![utf8::encode_utf8(t)].drop_last() =~= Seq::<Seq<u8>>::empty());
    assert(as_text(Seq::<Seq<u8>>::empty()) =~= Seq::<Seq<char>>::empty());
    assert(as_text(seq![utf8::encode_utf8(t)]) =~= seq![t]);
    if b.len() == 0 {
        assert(a + b =~= a);
        assert(as_text(a) + as_text(b) =~= as_text(a));
    } else {
        law_texts_are_passed_on(a, b.drop_last(), t, p);
        assert((a + b).drop_last() =~= a + b.drop_last());
        assert(as_text(a + b) =~= as_text(a) + as_text(b));
    }
}

/// Only root edits a baseline, never root's own: that of the user who is named, or
/// else of the one who called `sudo`.
pub proof fn law_target_is_named(
    is_root: bool,
    user: Option<Seq<char>>,
    sudo_user: Option<Seq<char>>,
    u: Seq<char>,
)
    ensures
        ({
            let r = target_of(is_root, user, sudo_user);
            let root = seq!['r', 'o', 'o', 't'];
            &&& r == Ok::<Seq<char>, TargetError>(u) <==> is_root && u != root && (user == Some(u)
                || user is None && sudo_user == Some(u))
            &&& r == Err::<Seq<char>, TargetError>(TargetError::NotRoot) <==> !is_root
            &&& r == Err::<Seq<char>, TargetError>(TargetError::Nobody) <==> is_root && user is None
                && sudo_user is None
            &&& r == Err::<Seq<char>, TargetError>(TargetError::Root) <==> is_root && (user == Some(
                root,
            ) || user is None && sudo_user == Some(root))
        }),
{
    reveal_strlit("root");
    assert("root"@ =~= seq!['r', 'o', 'o', 't']);
}

/// The width of a column is that of its widest name: none is wider, and one has it.
pub proof fn law_column_fits(names: Seq<Seq<char>>)
    ensures
        forall|i: int|
            0 <= i < names.len() ==> utf8::encode_utf8(#[trigger] names[i]).len() <= widest(names),
        names.len() > 0 ==> exists|i: int|
            0 <= i < names.len() && utf8::encode_utf8(#[trigger] names[i]).len() == widest(names),
        names.len() == 0 ==> widest(names) == 0,
    decreases names.len(),
{
    if names.len() > 0 {
        let init = names.drop_last();
        let n = names.len() - 1;
        law_column_fits(init);
        assert(names[n] == names.last());
        assert forall|i: int| 0 <= i < names.len() implies utf8::encode_utf8(
            #[trigger] names[i],
        ).len() <= widest(names) by {
            if i < n {
                assert(names[i] == init[i]);
            }
        }
        if widest(names) != utf8::encode_utf8(names[n]).len() {
            let i = choose|i: int|
                0 <= i < init.len() && utf8::encode_utf8(#[trigger] init[i]).len() == widest(init);
            assert(names[i] == init[i]);
        }
    }
}

/// A line of a list begins with the name and ends with what is shown; between them
/// stand only spaces, two of them behind the column.
pub proof fn law_list_line(name: Seq<char>, width: nat, shown: Seq<char>)
    ensures
        ({
            let r = list_line(name, width, shown);
            let column = if name.len() < width {
                width as int
            } else {
                name.len() as int
            };
            &&& r.len() == column + 2 + shown.len()
            &&& r.take(name.len() as int) == name
            &&& r.skip(column + 2) == shown
            &&& forall|i: int| name.len() <= i < column + 2 ==> #[trigger] r[i] == ' '
        }),
{
    reveal_strlit("  ");
    let r = list_line(name, width, shown);
    let column = if name.len() < width {
        width as int
    } else {
        name.len() as int
    };
    assert(r.take(name.len() as int) =~= name);
    assert(r.skip(column + 2) =~= shown);
}

} // verus!
