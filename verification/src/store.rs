//! Where vaults live: one encrypted file per named vault in one directory.
use crate::order;
use crate::path;
use crate::path::FsPath;
use crate::text;
use vstd::prelude::*;
use vstd::utf8;

verus! {

/// A character that names may hold: ASCII letters, digits, `.`, `_` and `-`.
pub open spec fn is_name_char(c: char) -> bool {
    crate::vault::is_word(c) || c == '.' || c == '-'
}

/// A name that is a single path component and stays in its directory.
pub open spec fn safe_name(name: Seq<char>) -> bool {
    &&& name.len() > 0
    &&& name != "."@
    &&& name != ".."@
    &&& only_name_chars(name)
}

pub open spec fn only_name_chars(name: Seq<char>) -> bool {
    forall|i: int| 0 <= i < name.len() ==> is_name_char(#[trigger] name[i])
}

/// Why a vault name is refused.
#[derive(Clone, Copy, Debug, PartialEq, Eq, Structural)]
pub enum NameError {
    Empty,
    Reserved,
    BadCharacter,
}

impl NameError {
    pub open spec fn text(self) -> Seq<char> {
        match self {
            NameError::Empty => "vault name cannot be empty"@,
            NameError::Reserved => "invalid vault name"@,
            NameError::BadCharacter => {
                "vault name may only contain letters, digits, '.', '_', and '-'"@
            },
        }
    }

    /// The reason in words.
    pub fn message(&self) -> (r: &'static str)
        ensures
            r@ == self.text(),
    {
        match self {
            NameError::Empty => "vault name cannot be empty",
            NameError::Reserved => "invalid vault name",
            NameError::BadCharacter => {
                "vault name may only contain letters, digits, '.', '_', and '-'"
            },
        }
    }
}

/// Whether a text holds name characters only.
fn has_only_name_chars(name: &str) -> (r: bool)
    ensures
        r == only_name_chars(name@),
{
    let chars = text::chars_of(name);
    let mut i: usize = 0;
    while i < chars.len()
        invariant
            chars@ == name@,
            i <= chars@.len(),
            forall|j: int| 0 <= j < i ==> is_name_char(#[trigger] name@[j]),
        decreases chars.len() - i,
    {
        let c = chars[i];
        if !(('a' <= c && c <= 'z') || ('A' <= c && c <= 'Z') || ('0' <= c && c <= '9') || c == '_'
            || c == '.' || c == '-') {
            assert(!is_name_char(name@[i as int]));
            return false;
        }
        i += 1;
    }
    true
}

/// Whether `name` can be the name of a vault: a single safe path component.
pub fn validate_name(name: &str) -> (r: Result<(), NameError>)
    ensures
        r is Ok <==> safe_name(name@),
        r == Err::<(), NameError>(NameError::Empty) <==> name@.len() == 0,
        r == Err::<(), NameError>(NameError::Reserved) <==> name@ == "."@ || name@ == ".."@,
        r == Err::<(), NameError>(NameError::BadCharacter) <==> !only_name_chars(name@),
{
    proof {
        reveal_strlit(".");
        reveal_strlit("..");
    }
    if name.is_empty() {
        return Err(NameError::Empty);
    }
    if text::same_text(name, ".") || text::same_text(name, "..") {
        return Err(NameError::Reserved);
    }
    if !has_only_name_chars(name) {
        return Err(NameError::BadCharacter);
    }
    Ok(())
}

/// Whether `user` can name a baseline file.
pub fn valid_user(user: &str) -> (r: bool)
    ensures
        r == safe_name(user@),
{
    validate_name(user).is_ok()
}

/// The file of a named vault in a directory.
pub open spec fn file_of(dir: Seq<u8>, name: Seq<char>, ending: Seq<char>) -> Seq<u8> {
    path::joined(dir, utf8::encode_utf8(name + ending))
}

fn file_in(dir: &FsPath, name: &str, ending: &str) -> (r: FsPath)
    ensures
        r@ == file_of(dir@, name@, ending@),
{
    let mut file = String::new();
    file.append(name);
    file.append(ending);
    assert(file@ =~= name@ + ending@);
    dir.join(&FsPath::of(file.as_str()))
}

/// The file of a vault in the vault directory.
pub fn vault_path(dir: &FsPath, name: &str) -> (r: Result<FsPath, NameError>)
    ensures
        match r {
            Ok(p) => safe_name(name@) && p@ == file_of(dir@, name@, ".vault"@),
            Err(e) => !safe_name(name@) && e == name_error(name@),
        },
{
    match validate_name(name) {
        Ok(_) => Ok(file_in(dir, name, ".vault")),
        Err(e) => Err(e),
    }
}

/// The file of a directory vault in the vault directory.
pub fn dirvault_path(dir: &FsPath, name: &str) -> (r: Result<FsPath, NameError>)
    ensures
        match r {
            Ok(p) => safe_name(name@) && p@ == file_of(dir@, name@, ".dirvault"@),
            Err(e) => !safe_name(name@) && e == name_error(name@),
        },
{
    match validate_name(name) {
        Ok(_) => Ok(file_in(dir, name, ".dirvault")),
        Err(e) => Err(e),
    }
}

/// Why a name that is not safe is refused.
pub open spec fn name_error(name: Seq<char>) -> NameError {
    if name.len() == 0 {
        NameError::Empty
    } else if name == "."@ || name == ".."@ {
        NameError::Reserved
    } else {
        NameError::BadCharacter
    }
}

/// The directory that holds all vaults: the one that is set, else one in the
/// user's configuration directory.
pub fn vault_dir(custom: Option<FsPath>, config: Option<FsPath>) -> (r: Option<FsPath>)
    ensures
        match r {
            Some(d) => match custom {
                Some(c) => d@ == c@,
                None => config is Some && d@ == path::joined(
                    config->0@,
                    utf8::encode_utf8("envvault"@),
                ),
            },
            None => custom is None && config is None,
        },
{
    if custom.is_some() {
        return custom;
    }
    match config {
        Some(c) => Some(c.join(&FsPath::of("envvault"))),
        None => None,
    }
}

/// The directory of the integrity baselines, which only root can write.
pub const BASELINE_DIR: &'static str = "/etc/envvault";

/// The directory of the integrity baselines.
pub open spec fn baseline_dir() -> Seq<u8> {
    utf8::encode_utf8("/etc/envvault"@)
}

/// The baseline file of a user.
pub fn baseline_path(user: &str) -> (r: FsPath)
    ensures
        r@ == file_of(baseline_dir(), user@, ".baseline"@),
{
    file_in(&FsPath::of(BASELINE_DIR), user, ".baseline")
}

/// The name of the temporary file that a user's baseline is written to.
pub fn baseline_temp_name(user: &str, pid: u32) -> (r: String)
    ensures
        r@ == "."@ + user@ + ".baseline.tmp."@ + text::decimal(pid as nat),
{
    let mut r = String::new();
    r.append(".");
    r.append(user);
    r.append(".baseline.tmp.");
    text::push_decimal(&mut r, pid as u64);
    assert(r@ =~= "."@ + user@ + ".baseline.tmp."@ + text::decimal(pid as nat));
    r
}

/// The name of the vault that a file of the vault directory is, going by its
/// ending: what stands before the ending, if that is text and not nothing.
pub open spec fn listed(file: Seq<u8>, ending: Seq<u8>) -> Option<Seq<char>> {
    let n = file.len() - ending.len();
    if n > 0 && file.skip(n) == ending && utf8::valid_utf8(file.take(n)) {
        Some(utf8::decode_utf8(file.take(n)))
    } else {
        None
    }
}

/// The names of the vaults among some files.
pub open spec fn all_listed(files: Seq<Seq<u8>>, ending: Seq<u8>) -> Seq<Seq<char>>
    decreases files.len(),
{
    if files.len() == 0 {
        Seq::empty()
    } else {
        let rest = all_listed(files.drop_last(), ending);
        match listed(files.last(), ending) {
            Some(n) => rest.push(n),
            None => rest,
        }
    }
}

fn list_with(files: &Vec<Vec<u8>>, ending: &str) -> (r: Vec<String>)
    ensures
        order::views(r@) == order::sorted::<String>(
            all_listed(order::views(files@), utf8::encode_utf8(ending@)),
        ),
{
    let ghost all = order::views(files@);
    let end = ending.as_bytes();
    let mut r: Vec<String> = Vec::new();
    let mut i: usize = 0;
    assert(all.take(0) == Seq::<Seq<u8>>::empty());
    assert(order::views(r@) =~= Seq::<Seq<char>>::empty());
    while i < files.len()
        invariant
            i <= files@.len(),
            all == order::views(files@),
            end@ == utf8::encode_utf8(ending@),
            order::views(r@) == all_listed(all.take(i as int), end@),
        decreases files.len() - i,
    {
        let ghost done = r@;
        let f = files[i].as_slice();
        proof {
            assert(all.take(i + 1).drop_last() == all.take(i as int));
            assert(all.take(i + 1).last() == f@);
        }
        if f.len() > end.len() {
            let n = f.len() - end.len();
            assert(f@.skip(n as int) == f@.subrange(n as int, f@.len() as int));
            assert(f@.take(n as int) == f@.subrange(0, n as int));
            if crate::crypto::same_bytes(&f[n..f.len()], end) {
                if let Ok(stem) = std::str::from_utf8(&f[0..n]) {
                    let name = stem.to_owned();
                    r.push(name);
                    assert(order::views(r@) =~= order::views(done).push(name@));
                }
            }
        }
        i += 1;
    }
    assert(all.take(all.len() as int) == all);
    order::sort(&mut r);
    r
}

/// The names of the vaults among the files of the vault directory, sorted.
pub fn list_vaults(files: &Vec<Vec<u8>>) -> (r: Vec<String>)
    ensures
        order::views(r@) == order::sorted::<String>(
            all_listed(order::views(files@), utf8::encode_utf8(".vault"@)),
        ),
{
    list_with(files, ".vault")
}

/// The names of the directory vaults among the files of the vault directory,
/// sorted.
pub fn list_dirvaults(files: &Vec<Vec<u8>>) -> (r: Vec<String>)
    ensures
        order::views(r@) == order::sorted::<String>(
            all_listed(order::views(files@), utf8::encode_utf8(".dirvault"@)),
        ),
{
    list_with(files, ".dirvault")
}

/// A safe name with an ending that begins with a dot is one plain component.
proof fn lemma_file_name(name: Seq<char>, ending: Seq<char>)
    requires
        safe_name(name),
        ending.len() > 1,
        ending[0] == '.',
        only_name_chars(ending),
    ensures
        path::plain_name(utf8::encode_utf8(name + ending)),
{
    let full = name + ending;
    let b = utf8::encode_utf8(full);
    assert forall|i: int| 0 <= i < full.len() implies is_name_char(#[trigger] full[i]) by {
        if i < name.len() {
            assert(full[i] == name[i]);
        } else {
            assert(full[i] == ending[i - name.len()]);
        }
    }
    assert(utf8::is_ascii_chars(full)) by {
        assert forall|i: int| 0 <= i < full.len() implies (full[i] as u32) < 128 by {
            assert(is_name_char(full[i]));
        }
    }
    utf8::is_ascii_chars_encode_utf8(full);
    assert(b.len() > 2);
    assert(seq![path::DOT].len() == 1);
    assert(seq![path::DOT, path::DOT].len() == 2);
    assert forall|i: int| 0 <= i < b.len() implies b[i] != path::SLASH by {
        assert(is_name_char(full[i]));
        assert(b[i] == full[i] as u8);
    }
}

/// The file of a vault with a safe name lies directly in its directory.
pub proof fn law_file_stays_inside(dir: Seq<u8>, name: Seq<char>, ending: Seq<char>)
    requires
        safe_name(name),
        ending.len() > 1,
        ending[0] == '.',
        only_name_chars(ending),
    ensures
        path::steps(file_of(dir, name, ending)) == path::steps(dir).push(
            path::Step::Name(utf8::encode_utf8(name + ending)),
        ),
{
    lemma_file_name(name, ending);
    path::lemma_joined_steps(dir, utf8::encode_utf8(name + ending));
}

/// A vault that was created under a safe name is listed under it.
pub proof fn law_created_is_listed(name: Seq<char>, ending: Seq<char>)
    requires
        safe_name(name),
    ensures
        listed(utf8::encode_utf8(name + ending), utf8::encode_utf8(ending)) == Some(name),
{
    text::lemma_encode_concat(name, ending);
    let a = utf8::encode_utf8(name);
    let b = utf8::encode_utf8(ending);
    assert(utf8::is_ascii_chars(name)) by {
        assert forall|i: int| 0 <= i < name.len() implies (name[i] as u32) < 128 by {
            assert(is_name_char(name[i]));
        }
    }
    utf8::is_ascii_chars_encode_utf8(name);
    assert((a + b).skip(a.len() as int) =~= b);
    assert((a + b).take(a.len() as int) =~= a);
    utf8::encode_utf8_valid_utf8(name);
    utf8::encode_utf8_decode_utf8(name);
}

/// A name is safe exactly if it is made of ASCII letters, digits, `.`, `_` and `-`
/// and is neither empty nor `.` nor `..`; an empty one, a reserved one and one with
/// another character are told apart.
pub proof fn law_safe_names(name: Seq<char>)
    ensures
        ({
            let good = |c: char|
                (0x41 <= c as int && c as int <= 0x5a) || (0x61 <= c as int && c as int <= 0x7a) || (
                0x30 <= c as int && c as int <= 0x39) || c as int == 0x2e || c as int == 0x5f
                    || c as int == 0x2d;
            let reserved = name == seq!['.'] || name == seq!['.', '.'];
            let all_good = forall|i: int| 0 <= i < name.len() ==> good(#[trigger] name[i]);
            &&& safe_name(name) <==> name.len() > 0 && !reserved && all_good
            &&& only_name_chars(name) <==> all_good
            &&& name.len() == 0 ==> name_error(name) == NameError::Empty
            &&& reserved ==> name_error(name) == NameError::Reserved
            &&& name.len() > 0 && !reserved && !safe_name(name) ==> name_error(name)
                == NameError::BadCharacter
        }),
{
    reveal_strlit(".");
    reveal_strlit("..");
    assert("."@ =~= seq!['.']);
    assert(".."@ =~= seq!['.', '.']);
    if only_name_chars(name) {
        assert forall|i: int| 0 <= i < name.len() implies (0x41 <= (#[trigger] name[i]) as int
            && name[i] as int <= 0x5a) || (0x61 <= name[i] as int && name[i] as int <= 0x7a) || (
        0x30 <= name[i] as int && name[i] as int <= 0x39) || name[i] as int == 0x2e
            || name[i] as int == 0x5f || name[i] as int == 0x2d by {
            assert(is_name_char(name[i]));
        }
    }
}

/// A file is listed under a name exactly if it is that name, which is not empty, with
/// the ending behind it.
pub proof fn law_listed_by_ending(file: Seq<u8>, ending: Seq<u8>, name: Seq<char>)
    ensures
        listed(file, ending) == Some(name) <==> name.len() > 0 && file == utf8::encode_utf8(name)
            + ending,
{
    let n = file.len() - ending.len();
    let e = utf8::encode_utf8(name);
    let none = Seq::<char>::empty();
    assert(utf8::is_ascii_chars(none));
    utf8::is_ascii_chars_encode_utf8(none);
    assert(utf8::encode_utf8(none) =~= Seq::<u8>::empty());
    if listed(file, ending) == Some(name) {
        utf8::decode_utf8_encode_utf8(file.take(n));
        assert(file =~= e + ending);
        if name.len() == 0 {
            assert(name =~= none);
        }
    }
    if name.len() > 0 && file == e + ending {
        utf8::encode_utf8_valid_utf8(name);
        utf8::encode_utf8_decode_utf8(name);
        if e.len() == 0 {
            assert(e =~= utf8::encode_utf8(none));
            utf8::encode_utf8_decode_utf8(none);
            assert(name =~= none);
        }
        assert(file.take(n) =~= e);
        assert(file.skip(n) =~= ending);
    }
}

/// The vaults among some files are those that each file is, in order.
pub proof fn law_every_vault_is_listed(
    a: Seq<Seq<u8>>,
    b: Seq<Seq<u8>>,
    file: Seq<u8>,
    ending: Seq<u8>,
)
    ensures
        all_listed(a + b, ending) == all_listed(a, ending) + all_listed(b, ending),
        all_listed(seq![file], ending) == (match listed(file, ending) {
            Some(n) => seq![n],
            None => Seq::empty(),
        }),
    decreases b.len(),
{
    assert(seq![file].drop_last() =~= Seq::<Seq<u8>>::empty());
    assert(all_listed(Seq::<Seq<u8>>::empty(), ending) =~= Seq::empty());
    assert(all_listed(seq![file], ending) =~= (match listed(file, ending) {
        Some(n) => seq![n],
        None => Seq::empty(),
    }));
    if b.len() == 0 {
        assert(a + b =~= a);
        assert(all_listed(a + b, ending) =~= all_listed(a, ending) + all_listed(b, ending));
    } else {
        law_every_vault_is_listed(a, b.drop_last(), file, ending);
        assert((a + b).drop_last() =~= a + b.drop_last());
        assert((a + b).last() == b.last());
        assert(all_listed(a + b, ending) =~= all_listed(a, ending) + all_listed(b, ending));
    }
}

/// A user's baseline lies in `/etc/envvault`, which only root can write, under the
/// user's name.
pub proof fn law_baselines_lie_in_etc(user: Seq<char>)
    requires
        safe_name(user),
    ensures
        path::steps(file_of(baseline_dir(), user, ".baseline"@)) == seq![
            path::Step::Root,
            path::Step::Name(seq![0x65u8, 0x74u8, 0x63u8]),
            path::Step::Name(
                seq![0x65u8, 0x6eu8, 0x76u8, 0x76u8, 0x61u8, 0x75u8, 0x6cu8, 0x74u8],
            ),
            path::Step::Name(utf8::encode_utf8(user + ".baseline"@)),
        ],
{
    let ending = ".baseline"@;
    reveal_strlit(".baseline");
    assert forall|i: int| 0 <= i < ending.len() implies is_name_char(#[trigger] ending[i]) by {}
    law_file_stays_inside(baseline_dir(), user, ending);
    let dir = "/etc/envvault"@;
    reveal_strlit("/etc/envvault");
    assert(utf8::is_ascii_chars(dir));
    utf8::is_ascii_chars_encode_utf8(dir);
    let etc = seq![0x65u8, 0x74u8, 0x63u8];
    let name = seq![0x65u8, 0x6eu8, 0x76u8, 0x76u8, 0x61u8, 0x75u8, 0x6cu8, 0x74u8];
    let top = seq![0x2fu8] + etc;
    assert(baseline_dir() =~= top + seq![0x2fu8] + name);
    assert(!etc.contains(0x2fu8)) by {
        assert forall|i: int| 0 <= i < etc.len() implies etc[i] != 0x2fu8 by {}
    }
    assert(!name.contains(0x2fu8)) by {
        assert forall|i: int| 0 <= i < name.len() implies name[i] != 0x2fu8 by {}
    }
    assert(etc.len() == 3 && name.len() == 8);
    path::law_paths_are_read_by_pieces(top, etc);
    path::law_paths_are_read_by_pieces(top, name);
    assert(path::steps(baseline_dir()) =~= seq![
        path::Step::Root,
        path::Step::Name(etc),
        path::Step::Name(name),
    ]);
    assert(path::steps(baseline_dir()).push(
        path::Step::Name(utf8::encode_utf8(user + ending)),
    ) =~= seq![
        path::Step::Root,
        path::Step::Name(etc),
        path::Step::Name(name),
        path::Step::Name(utf8::encode_utf8(user + ending)),
    ]);
}

} // verus!
