//! The removal of a file call by call: what each answer leads to, and what it comes to.

use crate::disk::{IoError, Lstat, Reply, Request};
use crate::paths;
use crate::reaper::FileStage;
use crate::reaper_laws;
use vstd::prelude::*;

verus! {

/// The call that the removal of the file at `path` makes next, once it was given these answers.
pub open spec fn next_call(path: Seq<u8>, replies: Seq<Reply>) -> Option<Request<Seq<u8>>> {
    reaper_laws::file_run(path, replies).request(path)
}

/// Given these answers, the removal is over: it freed so many bytes, and this is why the file
/// stays, if it does.
pub open spec fn comes_to(
    path: Seq<u8>,
    replies: Seq<Reply>,
    freed: int,
    error: Option<Seq<char>>,
) -> bool {
    reaper_laws::file_run(path, replies) matches FileStage::Finished(f, e) && f == freed && e
        == error
}

/// What a failed call comes to: nothing is freed, and its message is the error unless it says
/// that the file is missing.
pub open spec fn fails_with(path: Seq<u8>, replies: Seq<Reply>, e: IoError) -> bool {
    comes_to(
        path,
        replies,
        0,
        if e.kind is NotFound {
            None
        } else {
            Some(e.message@)
        },
    )
}

/// What an unlink that worked comes to: all blocks of the file as it was looked at, of 512 bytes
/// each, if it had one link, and nothing if it had more.
pub open spec fn goes(path: Seq<u8>, replies: Seq<Reply>, stat: Lstat) -> bool {
    comes_to(
        path,
        replies,
        if stat.nlink == 1 {
            stat.blocks * 512
        } else {
            0
        },
        None,
    )
}

proof fn lemma_one_more(path: Seq<u8>, replies: Seq<Reply>, reply: Reply)
    ensures
        reaper_laws::file_run(path, replies.push(reply)) == reaper_laws::file_run(
            path,
            replies,
        ).after(path, reply),
{
    assert(replies.push(reply).drop_last() =~= replies);
    assert(replies.push(reply).last() == reply);
}

/// A dry run is over at once. Else the file is looked at first; if that fails, so does the
/// removal, and else the file is unlinked next.
pub proof fn law_file_is_looked_at_first(path: Seq<u8>, e: IoError, stat: Lstat)
    ensures
        FileStage::start(true) == FileStage::<Seq<char>>::Finished(0, None),
        next_call(path, seq![]) == Some(Request::Lstat(path)),
        fails_with(path, seq![].push(Reply::Stat(Err(e))), e),
        next_call(path, seq![].push(Reply::Stat(Ok(stat)))) == Some(Request::Unlink(path)),
{
    lemma_one_more(path, seq![], Reply::Stat(Err(e)));
    lemma_one_more(path, seq![], Reply::Stat(Ok(stat)));
}

/// If the unlink works, the file is gone. If it fails for want of permission, the directory that
/// holds the file is looked at, if the path has one, and else the file is unlinked once more. If
/// it fails otherwise, so does the removal.
pub proof fn law_file_is_unlinked_next(path: Seq<u8>, stat: Lstat, e: IoError)
    requires
        stat.nlink == 1 ==> stat.blocks * 512 <= u64::MAX,
    ensures
        ({
            let looked = seq![].push(Reply::Stat(Ok(stat)));
            let refused = looked.push(Reply::Done(Err(e)));
            &&& goes(path, looked.push(Reply::Done(Ok(()))), stat)
            &&& !(e.kind is PermissionDenied) ==> fails_with(path, refused, e)
            &&& e.kind is PermissionDenied ==> next_call(path, refused) == match paths::parent_of(
                path,
            ) {
                Some(d) => Some(Request::Lstat(d)),
                None => Some(Request::Unlink(path)),
            }
        }),
{
    let looked = seq![].push(Reply::Stat(Ok(stat)));
    lemma_one_more(path, seq![], Reply::Stat(Ok(stat)));
    lemma_one_more(path, looked, Reply::Done(Ok(())));
    lemma_one_more(path, looked, Reply::Done(Err(e)));
}

/// The directory is given the owner's write bit, and no other, if it was seen to lack it; whether
/// that works or not, and where it is not needed or not known, the file is unlinked once more.
pub proof fn law_directory_of_a_refused_file_is_made_writable(
    path: Seq<u8>,
    stat: Lstat,
    e: IoError,
    dir: Result<Lstat, IoError>,
    granted: Result<(), IoError>,
)
    requires
        e.kind is PermissionDenied,
        paths::parent_of(path) is Some,
    ensures
        ({
            let refused = seq![].push(Reply::Stat(Ok(stat))).push(Reply::Done(Err(e)));
            let seen = refused.push(Reply::Stat(dir));
            let locked = dir matches Ok(d) && d.mode & 0o200 == 0;
            &&& locked ==> next_call(path, seen) == Some(
                Request::Chmod(paths::parent_of(path)->0, dir->Ok_0.mode | 0o200),
            )
            &&& locked ==> next_call(path, seen.push(Reply::Done(granted))) == Some(
                Request::Unlink(path),
            )
            &&& !locked ==> next_call(path, seen) == Some(Request::Unlink(path))
        }),
{
    let looked = seq![].push(Reply::Stat(Ok(stat)));
    let refused = looked.push(Reply::Done(Err(e)));
    let seen = refused.push(Reply::Stat(dir));
    lemma_one_more(path, seq![], Reply::Stat(Ok(stat)));
    lemma_one_more(path, looked, Reply::Done(Err(e)));
    lemma_one_more(path, refused, Reply::Stat(dir));
    lemma_one_more(path, seen, Reply::Done(granted));
}

/// The answers up to the second unlink of a file whose first was refused.
pub open spec fn before_last_unlink(
    path: Seq<u8>,
    stat: Lstat,
    e: IoError,
    dir: Result<Lstat, IoError>,
    granted: Result<(), IoError>,
) -> Seq<Reply> {
    let refused = seq![].push(Reply::Stat(Ok(stat))).push(Reply::Done(Err(e)));
    if paths::parent_of(path) is None {
        refused
    } else if dir matches Ok(d) && d.mode & 0o200 == 0 {
        refused.push(Reply::Stat(dir)).push(Reply::Done(granted))
    } else {
        refused.push(Reply::Stat(dir))
    }
}

/// The second unlink is the last: if it works the file is gone, and if it fails so does the
/// removal, for whatever reason.
pub proof fn law_second_unlink_is_the_last(
    path: Seq<u8>,
    stat: Lstat,
    e: IoError,
    dir: Result<Lstat, IoError>,
    granted: Result<(), IoError>,
    again: IoError,
)
    requires
        e.kind is PermissionDenied,
        stat.nlink == 1 ==> stat.blocks * 512 <= u64::MAX,
    ensures
        ({
            let replies = before_last_unlink(path, stat, e, dir, granted);
            &&& next_call(path, replies) == Some(Request::Unlink(path))
            &&& goes(path, replies.push(Reply::Done(Ok(()))), stat)
            &&& fails_with(path, replies.push(Reply::Done(Err(again))), again)
        }),
{
    let looked = seq![].push(Reply::Stat(Ok(stat)));
    let refused = looked.push(Reply::Done(Err(e)));
    let seen = refused.push(Reply::Stat(dir));
    let replies = before_last_unlink(path, stat, e, dir, granted);
    lemma_one_more(path, seq![], Reply::Stat(Ok(stat)));
    lemma_one_more(path, looked, Reply::Done(Err(e)));
    lemma_one_more(path, refused, Reply::Stat(dir));
    lemma_one_more(path, seen, Reply::Done(granted));
    lemma_one_more(path, replies, Reply::Done(Ok(())));
    lemma_one_more(path, replies, Reply::Done(Err(again)));
}

/// A count of bytes has room for an answer unless the answer says that a file of one link went
/// whose blocks are more bytes than 64 bits count.
pub proof fn law_room_is_64_bits(stage: FileStage<Seq<char>>, reply: Reply)
    ensures
        stage.room(reply) == (match (stage, reply) {
            (FileStage::Unlink(nlink, blocks), Reply::Done(Ok(_))) => nlink != 1 || blocks * 512
                <= 0xffff_ffff_ffff_ffff,
            (FileStage::UnlinkAgain(nlink, blocks), Reply::Done(Ok(_))) => nlink != 1 || blocks
                * 512 <= 0xffff_ffff_ffff_ffff,
            _ => true,
        }),
{
}

/// A stage over a text is the same stage over its characters, with the numbers that it keeps.
pub proof fn law_stages_keep_their_kind(
    mode: u32,
    nlink: u64,
    blocks: u64,
    freed: u64,
    error: String,
)
    ensures
        FileStage::<String>::Weigh@ == FileStage::<Seq<char>>::Weigh,
        FileStage::<String>::Unlink(nlink, blocks)@ == FileStage::<Seq<char>>::Unlink(
            nlink,
            blocks,
        ),
        FileStage::<String>::RelaxParent(nlink, blocks)@ == FileStage::<Seq<char>>::RelaxParent(
            nlink,
            blocks,
        ),
        FileStage::<String>::GrantParent(mode, nlink, blocks)@ == FileStage::<
            Seq<char>,
        >::GrantParent(mode, nlink, blocks),
        FileStage::<String>::UnlinkAgain(nlink, blocks)@ == FileStage::<Seq<char>>::UnlinkAgain(
            nlink,
            blocks,
        ),
        FileStage::<String>::Finished(freed, None)@ == FileStage::<Seq<char>>::Finished(
            freed,
            None,
        ),
        FileStage::Finished(freed, Some(error))@ == FileStage::Finished(freed, Some(error@)),
{
}

} // verus!
