//! Opens: which paths are opened, what a result means, and which sidecar is selected.

use crate::pipeline;
use crate::resolve;
use crate::resolve::{
    EncodedOpeningView, EncodedOutcome, EncodedStepView, Errno, FileStat, MissKind, Opened,
    OpeningView, Outcome, ServedFile, SidecarSearchView, SidecarStepView, SymlinkPolicy,
};
use crate::sidecar;
use crate::sidecar::Encoding;
use crate::text;
use vstd::prelude::*;
use vstd::string::*;

verus! {

/// A path may be opened when it is empty, or when none of its pieces is empty, `.` or `..` and
/// it holds no control character.
pub proof fn law_which_paths_may_be_opened(rel: Seq<char>)
    ensures
        resolve::is_openable(rel) <==> {
            ||| rel.len() == 0
            ||| {
                &&& forall|i: int|
                    0 <= i < rel.len() ==> #[trigger] rel[i] >= '\u{20}' && rel[i] != '\u{7f}'
                &&& forall|i: int|
                    0 <= i < text::split(rel, '/').len() ==> {
                        let piece = #[trigger] text::split(rel, '/')[i];
                        piece.len() > 0 && piece != seq!['.'] && piece != seq!['.', '.']
                    }
            }
        },
{
    let pieces = text::split(rel, '/');
    if rel.len() > 0 {
        if resolve::is_openable(rel) {
            assert forall|i: int| 0 <= i < rel.len() implies #[trigger] rel[i] >= '\u{20}' && rel[i]
                != '\u{7f}' by {
                assert(!pipeline::is_control_char(rel[i]));
            }
            assert forall|i: int| 0 <= i < pieces.len() implies {
                let piece = #[trigger] pieces[i];
                piece.len() > 0 && piece != seq!['.'] && piece != seq!['.', '.']
            } by {
                assert(resolve::is_normal_segment(text::split(rel, '/')[i]));
            }
        }
        if (forall|i: int|
            0 <= i < rel.len() ==> #[trigger] rel[i] >= '\u{20}' && rel[i] != '\u{7f}') && (forall|
            i: int,
        |
            0 <= i < pieces.len() ==> {
                let piece = #[trigger] pieces[i];
                piece.len() > 0 && piece != seq!['.'] && piece != seq!['.', '.']
            }) {
            assert forall|i: int| 0 <= i < rel.len() implies !pipeline::is_control_char(
                #[trigger] rel[i],
            ) by {
                assert(rel[i] >= '\u{20}' && rel[i] != '\u{7f}');
            }
            assert forall|i: int| 0 <= i < pieces.len() implies resolve::is_normal_segment(
                #[trigger] text::split(rel, '/')[i],
            ) by {
                assert(pieces[i].len() > 0);
            }
        }
    }
}

/// A path is opened as it is written, and the empty one as the docroot itself. Symlinks are not
/// followed where the policy denies them.
pub proof fn law_paths_are_opened_as_written(rel: Seq<char>, policy: SymlinkPolicy)
    ensures
        resolve::opening_of(rel, policy) == (OpeningView {
            target: if rel.len() == 0 {
                seq!['.']
            } else {
                rel
            },
            no_symlinks: policy == SymlinkPolicy::Deny,
            attempts: 0,
        }),
{
}

/// What an error means: absence, a non-directory, denied permission, a denied symlink, an
/// attempt to leave and a special file are misses; a request to repeat sheds; any other error is
/// a fault.
pub proof fn law_errors_of_an_open<F>(e: Errno)
    ensures
        ({
            let outcome = resolve::open_outcome::<F>(Err(e));
            match e {
                Errno::NoEnt => outcome == Outcome::<F>::Miss(MissKind::NotFound),
                Errno::NotDir => outcome == Outcome::<F>::Miss(MissKind::NotDir),
                Errno::Access => outcome == Outcome::<F>::Miss(MissKind::Access),
                Errno::Perm => outcome == Outcome::<F>::Miss(MissKind::Access),
                Errno::Loop => outcome == Outcome::<F>::Miss(MissKind::SymlinkDenied),
                Errno::XDev => outcome == Outcome::<F>::Miss(MissKind::EscapesRoot),
                Errno::NxIo => outcome == Outcome::<F>::Miss(MissKind::NotRegular),
                Errno::Again => outcome == Outcome::<F>::Shed,
                Errno::NoSys => outcome == Outcome::<F>::Fault(e),
                Errno::Inval => outcome == Outcome::<F>::Fault(e),
                Errno::Intr => outcome == Outcome::<F>::Fault(e),
                Errno::Other(_) => outcome == Outcome::<F>::Fault(e),
            }
        }),
{
}

/// What an opened file is, by the format bits of its mode: a regular file with its own snapshot,
/// a directory, or a miss. A file that cannot be inspected is a fault.
pub proof fn law_kinds_of_files<F>(opened: Opened<F>, stat: FileStat, e: Errno)
    ensures
        opened.stat == Err::<FileStat, _>(e) ==> resolve::open_outcome(Ok(opened))
            == Outcome::<F>::Fault(e),
        opened.stat == Ok::<_, Errno>(stat) && stat.mode & 0o170000 == 0o100000
            ==> resolve::open_outcome(Ok(opened)) == Outcome::File(
            ServedFile {
                fd: opened.fd,
                len: stat.size as u64,
                mtime_sec: stat.mtime_sec,
                mtime_nsec: stat.mtime_nsec,
                generation: opened.generation,
            },
        ),
        opened.stat == Ok::<_, Errno>(stat) && stat.mode & 0o170000 == 0o040000
            ==> resolve::open_outcome(Ok(opened)) == Outcome::<F>::Directory,
        opened.stat == Ok::<_, Errno>(stat) && stat.mode & 0o170000 != 0o100000 && stat.mode
            & 0o170000 != 0o040000 ==> resolve::open_outcome(Ok(opened)) == Outcome::<F>::Miss(
            MissKind::NotRegular,
        ),
{
}

/// An open is repeated three times at most, and only when the kernel asks for it.
pub proof fn law_opens_are_repeated_on_request<F>(
    attempts: u32,
    result: Result<Opened<F>, Errno>,
)
    ensures
        resolve::is_retried(attempts, result) <==> attempts < 3 && result == Err::<Opened<F>, _>(
            Errno::Again,
        ),
{
}

/// What the name of the sidecar of an encoding ends in.
pub open spec fn sidecar_end(e: Encoding) -> Seq<char> {
    match e {
        Encoding::Identity => Seq::empty(),
        Encoding::Brotli => seq!['.', 'b', 'r'],
        Encoding::Zstd => seq!['.', 'z', 's', 't'],
        Encoding::Gzip => seq!['.', 'g', 'z'],
    }
}

/// A sidecar lies beside its file, under the same name with `.br`, `.zst` or `.gz` behind it.
/// The encodings carry these ends, their tokens, and the ends of their validators.
pub proof fn law_sidecars_lie_beside_their_files(rel: Seq<char>, e: Encoding)
    ensures
        e == Encoding::Identity ==> resolve::sidecar_path(rel, e) is None
            && sidecar::file_suffix_of(e) is None && sidecar::content_encoding_of(e) is None
            && sidecar::etag_suffix_of(e) is None,
        e != Encoding::Identity ==> resolve::sidecar_path(rel, e) == Some(rel + sidecar_end(e))
            && sidecar::file_suffix_of(e) == Some(sidecar_end(e)),
        e == Encoding::Brotli ==> sidecar::content_encoding_of(e) == Some(seq!['b', 'r'])
            && sidecar::etag_suffix_of(e) == Some(seq!['-', 'b', 'r']),
        e == Encoding::Zstd ==> sidecar::content_encoding_of(e) == Some(seq!['z', 's', 't', 'd'])
            && sidecar::etag_suffix_of(e) == Some(seq!['-', 'z', 's', 't']),
        e == Encoding::Gzip ==> sidecar::content_encoding_of(e) == Some(seq!['g', 'z', 'i', 'p'])
            && sidecar::etag_suffix_of(e) == Some(seq!['-', 'g', 'z']),
{
    reveal_strlit(".br");
    reveal_strlit(".zst");
    reveal_strlit(".gz");
    reveal_strlit("br");
    reveal_strlit("zstd");
    reveal_strlit("gzip");
    reveal_strlit("-br");
    reveal_strlit("-zst");
    reveal_strlit("-gz");
    assert(".br"@ =~= seq!['.', 'b', 'r']);
    assert(".zst"@ =~= seq!['.', 'z', 's', 't']);
    assert(".gz"@ =~= seq!['.', 'g', 'z']);
    assert("br"@ =~= seq!['b', 'r']);
    assert("zstd"@ =~= seq!['z', 's', 't', 'd']);
    assert("gzip"@ =~= seq!['g', 'z', 'i', 'p']);
    assert("-br"@ =~= seq!['-', 'b', 'r']);
    assert("-zst"@ =~= seq!['-', 'z', 's', 't']);
    assert("-gz"@ =~= seq!['-', 'g', 'z']);
}

/// Where an encoding has a sidecar of a file.
pub open spec fn sidecar_found<F>(
    rel: Seq<char>,
    e: Encoding,
    resolved: spec_fn(Seq<char>) -> Outcome<F>,
) -> bool {
    e != Encoding::Identity && resolved(rel + sidecar_end(e)) is File
}

/// What is sent for a file: the sidecar of the first encoding that has one, or else the file.
pub open spec fn is_sent<F>(
    rel: Seq<char>,
    preference: Seq<Encoding>,
    resolved: spec_fn(Seq<char>) -> Outcome<F>,
    file: ServedFile<F>,
    e: Encoding,
    sent: ServedFile<F>,
) -> bool {
    ||| {
        &&& rel.len() == 0 || forall|k: int|
            0 <= k < preference.len() ==> !sidecar_found(rel, #[trigger] preference[k], resolved)
        &&& e == Encoding::Identity
        &&& sent == file
    }
    ||| rel.len() > 0 && exists|k: int|
        {
            &&& 0 <= k < preference.len()
            &&& #[trigger] preference[k] == e
            &&& sidecar_found(rel, e, resolved)
            &&& resolved(rel + sidecar_end(e)) == Outcome::File(sent)
            &&& forall|j: int|
                0 <= j < k ==> !sidecar_found(rel, #[trigger] preference[j], resolved)
        }
}

/// The first sidecar of a path that may be opened.
pub proof fn lemma_first_sidecar<F>(
    rel: Seq<char>,
    preference: Seq<Encoding>,
    resolved: spec_fn(Seq<char>) -> Outcome<F>,
    from: int,
)
    requires
        rel.len() > 0,
        resolve::is_openable(rel),
        0 <= from <= preference.len(),
    ensures
        match resolve::first_sidecar(rel, preference, resolved, from) {
            None => forall|k: int|
                from <= k < preference.len() ==> !sidecar_found(
                    rel,
                    #[trigger] preference[k],
                    resolved,
                ),
            Some((e, sent)) => exists|k: int|
                {
                    &&& from <= k < preference.len()
                    &&& #[trigger] preference[k] == e
                    &&& sidecar_found(rel, e, resolved)
                    &&& resolved(rel + sidecar_end(e)) == Outcome::File(sent)
                    &&& forall|j: int|
                        from <= j < k ==> !sidecar_found(rel, #[trigger] preference[j], resolved)
                },
        },
    decreases preference.len() - from,
{
    if from < preference.len() {
        let e = preference[from];
        law_sidecars_lie_beside_their_files(rel, e);
        if e != Encoding::Identity {
            resolve::law_sidecars_are_openable(rel, e);
        }
        lemma_first_sidecar(rel, preference, resolved, from + 1);
        if !sidecar_found(rel, e, resolved) {
            if let Some((e2, sent)) = resolve::first_sidecar(
                rel,
                preference,
                resolved,
                from + 1,
            ) {
                let k = choose|k: int|
                    {
                        &&& from + 1 <= k < preference.len()
                        &&& #[trigger] preference[k] == e2
                        &&& sidecar_found(rel, e2, resolved)
                        &&& resolved(rel + sidecar_end(e2)) == Outcome::File(sent)
                        &&& forall|j: int|
                            from + 1 <= j < k ==> !sidecar_found(
                                rel,
                                #[trigger] preference[j],
                                resolved,
                            )
                    };
                assert(preference[k] == e2);
            }
        } else {
            assert(preference[from] == e);
        }
    }
}

/// A file is sent as the sidecar of the first encoding in the order of preference that has one
/// beside it, and as it is where none has.
pub proof fn law_first_sidecar_is_sent<F>(
    rel: Seq<char>,
    preference: Seq<Encoding>,
    policy: SymlinkPolicy,
    resolved: spec_fn(Seq<char>) -> Outcome<F>,
    file: ServedFile<F>,
)
    requires
        resolve::is_openable(rel),
        resolved(
            if rel.len() == 0 {
                seq!['.']
            } else {
                rel
            },
        ) == Outcome::File(file),
    ensures
        resolve::encoded_result(
            resolve::encoded_from::<F>(rel, preference, policy),
            resolved,
            preference.len(),
        ) matches Some(EncodedOutcome { identity, sidecar }) && identity == Outcome::File(file)
            && match sidecar {
            Some((e, sent)) => is_sent(rel, preference, resolved, file, e, sent) && e
                != Encoding::Identity,
            None => is_sent(rel, preference, resolved, file, Encoding::Identity, file),
        },
{
    resolve::law_encoded_selects_first_sidecar(rel, preference, policy, resolved);
    if rel.len() > 0 {
        lemma_first_sidecar(rel, preference, resolved, 0);
    }
}

/// What is no regular file has no sidecar, and a path that may not be opened is a fault.
pub proof fn law_no_file_no_sidecar<F>(
    rel: Seq<char>,
    preference: Seq<Encoding>,
    policy: SymlinkPolicy,
    resolved: spec_fn(Seq<char>) -> Outcome<F>,
    outcome: Outcome<F>,
)
    requires
        resolve::is_openable(rel) ==> outcome == resolved(
            if rel.len() == 0 {
                seq!['.']
            } else {
                rel
            },
        ),
        !resolve::is_openable(rel) ==> outcome == Outcome::<F>::Fault(Errno::Inval),
        !(outcome is File),
    ensures
        resolve::encoded_result(
            resolve::encoded_from::<F>(rel, preference, policy),
            resolved,
            preference.len(),
        ) == Some(EncodedOutcome { identity: outcome, sidecar: None }),
{
    resolve::law_encoded_selects_first_sidecar(rel, preference, policy, resolved);
}

/// A search opens one sidecar at a time, of the file it began with, under the policy that it
/// began with. No sidecar is tried twice, and none of the encodings that have one is left out.
pub proof fn law_searches_open_sidecars_in_order<F>(
    identity: ServedFile<F>,
    rel: Seq<char>,
    preference: Seq<Encoding>,
    policy: SymlinkPolicy,
    from: int,
)
    requires
        rel.len() > 0,
        resolve::is_openable(rel),
        0 <= from <= preference.len(),
    ensures
        match resolve::searched_from(identity, rel, preference, policy, from) {
            SidecarStepView::Probe(search) => {
                &&& search.identity == identity
                &&& search.rel == rel
                &&& search.preference == preference
                &&& from <= search.at < preference.len()
                &&& preference[search.at] != Encoding::Identity
                &&& search.opening == (OpeningView {
                    target: rel + sidecar_end(preference[search.at]),
                    no_symlinks: policy == SymlinkPolicy::Deny,
                    attempts: 0,
                })
                &&& forall|k: int|
                    from <= k < search.at ==> #[trigger] preference[k] == Encoding::Identity
            },
            SidecarStepView::Done(outcome) => {
                &&& outcome == (EncodedOutcome { identity: Outcome::File(identity), sidecar: None })
                &&& forall|k: int|
                    from <= k < preference.len() ==> #[trigger] preference[k] == Encoding::Identity
            },
        },
    decreases preference.len() - from,
{
    if from < preference.len() {
        let e = preference[from];
        law_sidecars_lie_beside_their_files(rel, e);
        if e != Encoding::Identity {
            resolve::law_sidecars_are_openable(rel, e);
            law_paths_are_opened_as_written(rel + sidecar_end(e), policy);
        } else {
            law_searches_open_sidecars_in_order(identity, rel, preference, policy, from + 1);
        }
    }
}

/// A search ends with the sidecar that turned out a regular file. Any other outcome is passed
/// over: the search goes on behind it, under the same policy and with all else as it was.
pub proof fn law_searches_pass_over_what_is_no_file<F>(
    search: SidecarSearchView<F>,
    file: ServedFile<F>,
    outcome: Outcome<F>,
)
    requires
        search.rel.len() > 0,
        resolve::is_openable(search.rel),
        0 <= search.at < search.preference.len(),
        !(outcome is File),
    ensures
        resolve::probed(search, Outcome::File(file)) == SidecarStepView::Done(
            EncodedOutcome {
                identity: Outcome::File(search.identity),
                sidecar: Some((search.preference[search.at], file)),
            },
        ),
        match resolve::probed(search, outcome) {
            SidecarStepView::Probe(next) => {
                &&& next.identity == search.identity
                &&& next.rel == search.rel
                &&& next.preference == search.preference
                &&& search.at < next.at < search.preference.len()
                &&& next.opening == (OpeningView {
                    target: search.rel + sidecar_end(search.preference[next.at]),
                    no_symlinks: search.opening.no_symlinks,
                    attempts: 0,
                })
                &&& forall|k: int|
                    search.at < k < next.at ==> #[trigger] search.preference[k]
                        == Encoding::Identity
            },
            SidecarStepView::Done(done) => {
                &&& done == (EncodedOutcome {
                    identity: Outcome::File(search.identity),
                    sidecar: None,
                })
                &&& forall|k: int|
                    search.at < k < search.preference.len() ==> #[trigger] search.preference[k]
                        == Encoding::Identity
            },
        },
{
    law_searches_open_sidecars_in_order(
        search.identity,
        search.rel,
        search.preference,
        resolve::policy_of(search.opening.no_symlinks),
        search.at + 1,
    );
}

/// A file is opened itself before its sidecars, and they under the same policy. Only a regular
/// file has any, and the docroot itself has none.
pub proof fn law_files_are_opened_before_their_sidecars<F>(
    rel: Seq<char>,
    preference: Seq<Encoding>,
    policy: SymlinkPolicy,
    outcome: Outcome<F>,
)
    requires
        resolve::is_openable(rel),
    ensures
        resolve::encoded_from::<F>(rel, preference, policy) == EncodedStepView::<F>::Identity(
            EncodedOpeningView {
                rel,
                preference,
                opening: OpeningView {
                    target: if rel.len() == 0 {
                        seq!['.']
                    } else {
                        rel
                    },
                    no_symlinks: policy == SymlinkPolicy::Deny,
                    attempts: 0,
                },
            },
        ),
        !(outcome is File) || rel.len() == 0 ==> resolve::sidecars_of(
            rel,
            preference,
            outcome,
            policy,
        ) == SidecarStepView::Done(EncodedOutcome { identity: outcome, sidecar: None }),
        outcome is File && rel.len() > 0 ==> match resolve::sidecars_of(
            rel,
            preference,
            outcome,
            policy,
        ) {
            SidecarStepView::Probe(search) => {
                &&& outcome == Outcome::File(search.identity)
                &&& search.rel == rel
                &&& search.preference == preference
                &&& 0 <= search.at < preference.len()
                &&& search.opening == (OpeningView {
                    target: rel + sidecar_end(preference[search.at]),
                    no_symlinks: policy == SymlinkPolicy::Deny,
                    attempts: 0,
                })
                &&& forall|k: int|
                    0 <= k < search.at ==> #[trigger] preference[k] == Encoding::Identity
            },
            SidecarStepView::Done(done) => {
                &&& done == (EncodedOutcome { identity: outcome, sidecar: None })
                &&& forall|k: int|
                    0 <= k < preference.len() ==> #[trigger] preference[k] == Encoding::Identity
            },
        },
{
    if let Outcome::File(file) = outcome {
        if rel.len() > 0 {
            law_searches_open_sidecars_in_order(file, rel, preference, policy, 0);
        }
    }
}

} // verus!
