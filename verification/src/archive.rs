//! How finished downloads are archived.

use crate::app::App;
use crate::numbers::{
    decimal, decimal_text, is_digit, law_read_gives_back_written, lemma_decimal_is_digits,
    lemma_no_leading_zero, read_u64,
};
use crate::text::texts;
use vstd::prelude::*;

verus! {

/// What becomes of the source of an archive.
#[derive(Debug, Clone, Copy, PartialEq, Eq, Structural)]
pub enum Cleanup {
    /// It stays.
    Keep,
    /// It is a directory and is removed with all that it holds.
    RemoveDirectory,
    /// It is a file and is removed.
    RemoveFile,
}

/// The arguments with which 7z packs `source` into `archive`.
pub open spec fn pack_args(level: u8, archive: Seq<char>, source: Seq<char>) -> Seq<Seq<char>> {
    seq!["a"@, "-mx="@ + decimal(level as nat), archive, source]
}

/// The file name of the archive for the torrent `name`.
pub open spec fn archive_name(name: Seq<char>) -> Seq<char> {
    name + ".7z"@
}

/// What is packed for a torrent.
pub open spec fn source_of(own_exists: bool, own: Seq<char>, download_dir: Seq<char>) -> Seq<char> {
    if own_exists {
        own
    } else {
        download_dir
    }
}

/// How 7z's end is reported.
pub open spec fn pack_end(success: bool, stderr: Seq<char>) -> Result<(), Seq<char>> {
    if success {
        Ok(())
    } else {
        Err("7z failed: "@ + stderr)
    }
}

/// What becomes of a source that is packed: it goes only where that is asked for and it is there.
pub open spec fn cleanup_of(delete: bool, exists: bool, is_dir: bool) -> Cleanup {
    if !(delete && exists) {
        Cleanup::Keep
    } else if is_dir {
        Cleanup::RemoveDirectory
    } else {
        Cleanup::RemoveFile
    }
}

impl App {
    /// The file name of the archive for the torrent `name`.
    pub fn archive_file_name(name: &str) -> (r: String)
        ensures
            r@ == archive_name(name@),
    {
        let mut r = name.to_owned();
        r.append(".7z");
        r
    }

    /// What is packed: the torrent's own file or directory `own`, where it exists, or else the
    /// whole download directory.
    pub fn archive_source(own_exists: bool, own: String, download_dir: String) -> (r: String)
        ensures
            r@ == source_of(own_exists, own@, download_dir@),
    {
        if own_exists {
            own
        } else {
            download_dir
        }
    }

    /// The arguments with which 7z packs `source` into `archive`.
    pub fn archive_args(level: u8, archive: &str, source: &str) -> (args: Vec<String>)
        ensures
            texts(args@) == pack_args(level, archive@, source@),
    {
        let mut option = "-mx=".to_owned();
        let number = decimal_text(level as u64);
        option.append(number.as_str());
        let mut args: Vec<String> = Vec::new();
        args.push("a".to_owned());
        args.push(option);
        args.push(archive.to_owned());
        args.push(source.to_owned());
        assert(texts(args@) =~= pack_args(level, archive@, source@));
        args
    }

    /// How 7z's end is reported: a failure with what it printed.
    pub fn archive_outcome(success: bool, stderr: &str) -> (r: Result<(), String>)
        ensures
            match r {
                Ok(_) => pack_end(success, stderr@) is Ok,
                Err(message) => pack_end(success, stderr@) == Err::<(), Seq<char>>(message@),
            },
    {
        if success {
            Ok(())
        } else {
            let mut message = "7z failed: ".to_owned();
            message.append(stderr);
            Err(message)
        }
    }

    /// What becomes of the source once it is packed.
    pub fn cleanup_action(delete: bool, exists: bool, is_dir: bool) -> (r: Cleanup)
        ensures
            r == cleanup_of(delete, exists, is_dir),
    {
        if delete && exists {
            if is_dir {
                Cleanup::RemoveDirectory
            } else {
                Cleanup::RemoveFile
            }
        } else {
            Cleanup::Keep
        }
    }
}

/// 7z is told to add the source to the archive, at the level that was asked for: behind `-mx=` the
/// numeral reads back as the level, so that different levels give different arguments.
pub proof fn law_the_level_is_handed_on(level: u8, archive: Seq<char>, source: Seq<char>)
    ensures
        pack_args(level, archive, source).len() == 4,
        pack_args(level, archive, source)[0] == "a"@,
        pack_args(level, archive, source)[1].take(4) == "-mx="@,
        read_u64(pack_args(level, archive, source)[1].skip(4)) == Some(level as u64),
        pack_args(level, archive, source)[1].skip(4).len() > 0,
        pack_args(level, archive, source)[1].skip(4)[0] != '+',
        pack_args(level, archive, source)[1].skip(4)[0] == '0' ==> level == 0,
        level == 0 ==> pack_args(level, archive, source)[1].skip(4) == seq!['0'],
        pack_args(level, archive, source)[2] == archive,
        pack_args(level, archive, source)[3] == source,
{
    reveal_strlit("-mx=");
    let option = pack_args(level, archive, source)[1];
    let numeral = decimal(level as nat);
    assert(option.take(4) =~= "-mx="@);
    assert(option.skip(4) =~= numeral);
    law_read_gives_back_written(level as u64);
    lemma_decimal_is_digits(level as nat);
    assert(is_digit(numeral[0]));
    lemma_no_leading_zero(level as nat);
    if level == 0 {
        assert(numeral =~= seq!['0']);
    }
}

/// The archive is named after the torrent: the torrent's name with the extension behind it, so that
/// different torrents have different archives.
pub proof fn law_archives_are_named_after_torrents(name: Seq<char>, other: Seq<char>)
    ensures
        archive_name(name).take(name.len() as int) == name,
        archive_name(name).skip(name.len() as int) == seq!['.', '7', 'z'],
        archive_name(name) == archive_name(other) ==> name == other,
{
    reveal_strlit(".7z");
    assert(archive_name(name).take(name.len() as int) =~= name);
    assert(archive_name(name).skip(name.len() as int) =~= seq!['.', '7', 'z']);
    if archive_name(name) == archive_name(other) {
        assert(archive_name(name).len() == name.len() + 3);
        assert(archive_name(other).len() == other.len() + 3);
        assert(archive_name(other).take(name.len() as int) =~= other);
    }
}

/// Nothing is removed unless that is asked for and there is something; then a directory is removed
/// as one and anything else as a file.
pub proof fn law_sources_go_only_on_request(exists: bool, is_dir: bool)
    ensures
        cleanup_of(false, exists, is_dir) == Cleanup::Keep,
        cleanup_of(true, false, is_dir) == Cleanup::Keep,
        cleanup_of(true, true, true) == Cleanup::RemoveDirectory,
        cleanup_of(true, true, false) == Cleanup::RemoveFile,
{
}

/// A torrent's own files are packed where they are there, and the download directory otherwise; and
/// where 7z does not succeed what it printed is reported.
pub proof fn law_own_files_are_packed_first(own: Seq<char>, download_dir: Seq<char>, stderr: Seq<char>)
    ensures
        source_of(true, own, download_dir) == own,
        source_of(false, own, download_dir) == download_dir,
        pack_end(true, stderr) is Ok,
        pack_end(false, stderr) == Err::<(), Seq<char>>("7z failed: "@ + stderr),
{
}

} // verus!
