use vstd::prelude::*;

use crate::entry::Directory;
use crate::entry::Entry;
use crate::entry::GEntry;
use crate::entry::GMeta;
use crate::error::Error;
use crate::error::GErr;
use crate::file::File;
use crate::file::GFile;
use crate::fs::g_chmod;
use crate::fs::g_chown;
use crate::fs::g_clone_into;
use crate::fs::g_find;
use crate::fs::g_fs_wf;
use crate::fs::g_insert;
use crate::fs::g_remove;
use crate::fs::Filesystem;
use crate::fs::GFs;

verus! {

/// One typed mutation record, as the external protocol decoder hands them
/// over. A batch is an ordered run of these for one subvolume or snapshot;
/// it must begin with `SubvolStart` or `SnapshotStart`. `Other` stands for
/// any record outside the modeled subset; it is skipped, never an error.
pub enum Command {
    SubvolStart { id: u128 },
    SnapshotStart { id: u128, parent_id: u128 },
    Mkdir { path: String },
    Mkfile { path: String },
    Chmod { path: String, mode: u32 },
    Chown { path: String, uid: u32, gid: u32 },
    Rename { from: String, to: String },
    Clone {
        src_path: String,
        src_start: usize,
        src_end: usize,
        dst_path: String,
        dst_offset: usize,
    },
    Other { name: String },
}

/// The effect of one command on a tree while interpreting. Start commands
/// met again mid-batch, like unrecognized records, are skipped.
pub open spec fn g_apply(fs: GFs, cmd: Command) -> Result<GFs, GErr> {
    match cmd {
        Command::Mkdir { path } => Ok(
            g_insert(fs, path@, GEntry::Directory(GMeta::dir_default())),
        ),
        Command::Mkfile { path } => Ok(g_insert(fs, path@, GEntry::File(GFile::empty()))),
        Command::Chmod { path, mode } => g_chmod(fs, path@, mode),
        Command::Chown { path, uid, gid } => g_chown(fs, path@, uid, gid),
        Command::Rename { from, to } => {
            if g_find(fs, from@) >= 0 {
                Ok(g_insert(g_remove(fs, from@), to@, fs[g_find(fs, from@)].1))
            } else {
                Err(GErr::MissingEntry { path: from@ })
            }
        },
        Command::Clone { src_path, src_start, src_end, dst_path, dst_offset } => g_clone_into(
            fs,
            src_path@,
            src_start as nat,
            src_end as nat,
            dst_path@,
            dst_offset as nat,
        ),
        _ => Ok(fs),
    }
}

/// Fold a run of commands over a tree, stopping at the first failure.
pub open spec fn g_run(fs: GFs, cmds: Seq<Command>) -> Result<GFs, GErr>
    decreases cmds.len(),
{
    if cmds.len() == 0 {
        Ok(fs)
    } else {
        match g_apply(fs, cmds[0]) {
            Ok(f2) => g_run(f2, cmds.drop_first()),
            Err(e) => Err(e),
        }
    }
}

/// The tree a fresh subvolume starts from: an implicit root directory at the
/// empty path.
pub open spec fn g_root_fs() -> GFs {
    seq![(Seq::<char>::empty(), GEntry::Directory(GMeta::dir_default()))]
}

/// Apply one command to a tree. Exactly mirrors [`g_apply`]; on failure the
/// tree is unchanged.
pub fn apply_command(fs: &mut Filesystem, cmd: &Command) -> (r: Result<(), Error>)
    requires
        g_fs_wf(old(fs)@),
    ensures
        g_fs_wf(final(fs)@),
        match g_apply(old(fs)@, *cmd) {
            Ok(f2) => r is Ok && final(fs)@ == f2,
            Err(e) => r matches Err(err) && err@ == e && final(fs)@ == old(fs)@,
        },
{
    match cmd {
        Command::Mkdir { path } => {
            let d = Directory::new_default();
            proof {
                assert(GEntry::Directory(d.meta@).wf());
            }
            fs.insert(path.clone(), Entry::Directory(d));
            Ok(())
        },
        Command::Mkfile { path } => {
            let f = File::new_empty();
            proof {
                assert(f@.wf());
            }
            fs.insert(path.clone(), Entry::File(f));
            Ok(())
        },
        Command::Chmod { path, mode } => fs.chmod(path, *mode),
        Command::Chown { path, uid, gid } => fs.chown(path, *uid, *gid),
        Command::Rename { from, to } => match fs.remove(from) {
            Ok(e) => {
                proof {
                    crate::fs::lemma_g_find_props(old(fs)@, from@);
                    assert(e@.wf());
                }
                fs.insert(to.clone(), e);
                Ok(())
            },
            Err(err) => Err(err),
        },
        Command::Clone { src_path, src_start, src_end, dst_path, dst_offset } => fs.clone_into(
            src_path,
            *src_start,
            *src_end,
            dst_path,
            *dst_offset,
        ),
        Command::SubvolStart { .. } => Ok(()),
        Command::SnapshotStart { .. } => Ok(()),
        Command::Other { .. } => Ok(()),
    }
}

/// One command keeps the tree's paths unique.
pub proof fn lemma_apply_unique(fs: GFs, cmd: Command)
    requires
        crate::fs::g_fs_unique(fs),
    ensures
        g_apply(fs, cmd) matches Ok(f2) ==> crate::fs::g_fs_unique(f2),
{
    match cmd {
        Command::Mkdir { path } => {
            crate::fs::lemma_insert_unique(fs, path@, GEntry::Directory(GMeta::dir_default()));
        },
        Command::Mkfile { path } => {
            crate::fs::lemma_insert_unique(fs, path@, GEntry::File(GFile::empty()));
        },
        Command::Chmod { path, mode } => {
            crate::fs::lemma_g_find_props(fs, path@);
            if g_find(fs, path@) >= 0 {
                let i = g_find(fs, path@);
                crate::fs::lemma_update_same_key_unique(
                    fs,
                    i,
                    fs[i].1.with_meta(GMeta { mode, ..fs[i].1.meta() }),
                );
            }
        },
        Command::Chown { path, uid, gid } => {
            crate::fs::lemma_g_find_props(fs, path@);
            if g_find(fs, path@) >= 0 {
                let i = g_find(fs, path@);
                crate::fs::lemma_update_same_key_unique(
                    fs,
                    i,
                    fs[i].1.with_meta(GMeta { uid, gid, ..fs[i].1.meta() }),
                );
            }
        },
        Command::Rename { from, to } => {
            if g_find(fs, from@) >= 0 {
                crate::fs::lemma_remove_unique(fs, from@);
                crate::fs::lemma_insert_unique(
                    g_remove(fs, from@),
                    to@,
                    fs[g_find(fs, from@)].1,
                );
            }
        },
        Command::Clone { src_path, src_start, src_end, dst_path, dst_offset } => {
            if g_apply(fs, cmd) is Ok {
                crate::fs::lemma_g_find_props(fs, dst_path@);
                let di = g_find(fs, dst_path@);
                let f2 = g_apply(fs, cmd)->Ok_0;
                assert(forall|j: int| 0 <= j < f2.len() ==> (#[trigger] f2[j]).0 == fs[j].0);
            }
        },
        _ => {},
    }
}

/// A whole run of commands keeps the tree's paths unique.
pub proof fn lemma_run_unique(fs: GFs, cmds: Seq<Command>)
    requires
        crate::fs::g_fs_unique(fs),
    ensures
        g_run(fs, cmds) matches Ok(f2) ==> crate::fs::g_fs_unique(f2),
    decreases cmds.len(),
{
    if cmds.len() > 0 {
        lemma_apply_unique(fs, cmds[0]);
        match g_apply(fs, cmds[0]) {
            Ok(f2) => {
                lemma_run_unique(f2, cmds.drop_first());
            },
            Err(_) => {},
        }
    }
}

/// Every tree in the ledger has unique paths.
pub open spec fn g_ledger_unique(led: GLedger) -> bool {
    forall|i: int| 0 <= i < led.len() ==> crate::fs::g_fs_unique((#[trigger] led[i]).1.fs)
}

/// Receiving keeps path-uniqueness: the tree a successful batch produces has
/// unique paths when every tree already in the ledger does, so the ledger
/// stays path-unique batch after batch.
pub proof fn lemma_receive_unique(led: GLedger, batch: Seq<Command>)
    requires
        g_ledger_unique(led),
    ensures
        g_receive(led, batch) matches Ok(pair) ==> crate::fs::g_fs_unique(pair.1.fs),
        g_receive(led, batch) matches Ok(pair) ==> g_ledger_unique(
            g_sv_insert(led, pair.0, pair.1),
        ),
{
    if batch.len() > 0 {
        match batch[0] {
            Command::SubvolStart { id } => {
                lemma_run_unique(g_root_fs(), batch.drop_first());
            },
            Command::SnapshotStart { id, parent_id } => {
                lemma_g_sv_find_props(led, parent_id);
                if g_sv_find(led, parent_id) >= 0 {
                    lemma_run_unique(led[g_sv_find(led, parent_id)].1.fs, batch.drop_first());
                }
            },
            _ => {},
        }
        if g_receive(led, batch) is Ok {
            let pair = g_receive(led, batch)->Ok_0;
            lemma_g_sv_find_props(led, pair.0);
            let led2 = g_sv_insert(led, pair.0, pair.1);
            assert forall|i: int|
                0 <= i < led2.len() implies crate::fs::g_fs_unique(
                (#[trigger] led2[i]).1.fs,
            ) by {
                if g_sv_find(led, pair.0) >= 0 {
                    if i == g_sv_find(led, pair.0) {
                        assert(led2[i].1 == pair.1);
                    } else {
                        assert(led2[i] == led[i]);
                    }
                } else {
                    if i < led.len() {
                        assert(led2[i] == led[i]);
                    } else {
                        assert(led2[i].1 == pair.1);
                    }
                }
            }
        }
    }
}

/// Mathematical model of a [`Subvol`].
#[verifier::ext_equal]
pub struct GSubvol {
    pub parent_uuid: Option<u128>,
    pub fs: GFs,
}

/// One completed subvolume or snapshot: the identifier of the subvolume it
/// was snapshotted from, if any, and its final tree. Never mutated once
/// stored in the ledger; later snapshots clone it instead of aliasing it.
#[derive(Debug)]
pub struct Subvol {
    pub parent_uuid: Option<u128>,
    pub fs: Filesystem,
}

impl View for Subvol {
    type V = GSubvol;

    open spec fn view(&self) -> GSubvol {
        GSubvol { parent_uuid: self.parent_uuid, fs: self.fs@ }
    }
}

/// Mathematical model of the ledger: identifier and subvolume, in the order
/// received.
pub type GLedger = Seq<(u128, GSubvol)>;

/// Index of the first ledger entry under `id`, or `-1` if there is none.
pub open spec fn g_sv_find(led: GLedger, id: u128) -> int
    decreases led.len(),
{
    if led.len() == 0 {
        -1
    } else if led[0].0 == id {
        0
    } else {
        let r = g_sv_find(led.drop_first(), id);
        if r < 0 {
            -1
        } else {
            r + 1
        }
    }
}

/// The ledger entry under `id`, if any.
pub open spec fn g_sv_lookup(led: GLedger, id: u128) -> Option<GSubvol> {
    if g_sv_find(led, id) >= 0 {
        Some(led[g_sv_find(led, id)].1)
    } else {
        None
    }
}

/// Insert or overwrite the ledger entry under `id`: last write wins.
pub open spec fn g_sv_insert(led: GLedger, id: u128, sv: GSubvol) -> GLedger {
    if g_sv_find(led, id) >= 0 {
        led.update(g_sv_find(led, id), (id, sv))
    } else {
        led.push((id, sv))
    }
}

/// What `g_sv_find` returns is in range and holds the identifier.
pub proof fn lemma_g_sv_find_props(led: GLedger, id: u128)
    ensures
        -1 <= g_sv_find(led, id) < led.len(),
        g_sv_find(led, id) >= 0 ==> led[g_sv_find(led, id)].0 == id,
    decreases led.len(),
{
    if led.len() > 0 && led[0].0 != id {
        let rest = led.drop_first();
        lemma_g_sv_find_props(rest, id);
        assert(forall|j: int| 0 <= j < rest.len() ==> (#[trigger] rest[j]) == led[j + 1]);
    }
}

/// `g_sv_find` points at `i` when `i` holds the identifier and nothing
/// before it does.
pub proof fn lemma_g_sv_find_at(led: GLedger, id: u128, i: int)
    requires
        0 <= i < led.len(),
        led[i].0 == id,
        forall|j: int| 0 <= j < i ==> (#[trigger] led[j]).0 != id,
    ensures
        g_sv_find(led, id) == i,
    decreases led.len(),
{
    if i > 0 {
        let rest = led.drop_first();
        assert(forall|j: int| 0 <= j < i - 1 ==> (#[trigger] rest[j]).0 == led[j + 1].0);
        assert(rest[i - 1].0 == id);
        lemma_g_sv_find_at(rest, id, i - 1);
    }
}

/// `g_sv_find` answers `-1` when no entry holds the identifier.
pub proof fn lemma_g_sv_find_absent(led: GLedger, id: u128)
    requires
        forall|j: int| 0 <= j < led.len() ==> (#[trigger] led[j]).0 != id,
    ensures
        g_sv_find(led, id) == -1,
    decreases led.len(),
{
    if led.len() > 0 {
        let rest = led.drop_first();
        assert(forall|j: int| 0 <= j < rest.len() ==> (#[trigger] rest[j]).0 == led[j + 1].0);
        lemma_g_sv_find_absent(rest, id);
    }
}

/// What one command batch makes of the ledger: the new subvolume's
/// identifier and state, or the error that aborts the batch. A batch must
/// begin with a subvolume start (interpretation begins from a tree holding
/// only the root directory) or a snapshot start (interpretation begins from
/// a deep copy of the parent's tree, which must already be in the ledger).
pub open spec fn g_receive(led: GLedger, batch: Seq<Command>) -> Result<(u128, GSubvol), GErr> {
    if batch.len() == 0 {
        Err(GErr::InvariantViolated { reason: "batch is empty"@ })
    } else {
        match batch[0] {
            Command::SubvolStart { id } => match g_run(g_root_fs(), batch.drop_first()) {
                Ok(fs) => Ok((id, GSubvol { parent_uuid: None, fs })),
                Err(e) => Err(e),
            },
            Command::SnapshotStart { id, parent_id } => {
                if g_sv_find(led, parent_id) < 0 {
                    Err(GErr::MissingParent { id: parent_id })
                } else {
                    match g_run(led[g_sv_find(led, parent_id)].1.fs, batch.drop_first()) {
                        Ok(fs) => Ok((id, GSubvol { parent_uuid: Some(parent_id), fs })),
                        Err(e) => Err(e),
                    }
                }
            },
            _ => Err(GErr::InvariantViolated { reason: "first command was not subvol start"@ }),
        }
    }
}

/// The ledger: every completed subvolume state, keyed by identifier. Grows
/// monotonically; entries are never removed, so parents stay available for
/// any number of future snapshots.
#[derive(Debug)]
pub struct Subvols(pub Vec<(u128, Subvol)>);

impl View for Subvols {
    type V = GLedger;

    open spec fn view(&self) -> GLedger {
        self.0@.map_values(|p: (u128, Subvol)| (p.0, p.1@))
    }
}

impl Subvols {
    /// Every stored tree is well formed.
    pub open spec fn wf(self) -> bool {
        forall|i: int| 0 <= i < self@.len() ==> g_fs_wf((#[trigger] self@[i]).1.fs)
    }

    /// An empty ledger.
    pub fn new() -> (r: Subvols)
        ensures
            r@ == Seq::<(u128, GSubvol)>::empty(),
            r.wf(),
    {
        let r = Subvols(Vec::new());
        proof {
            assert(r@ =~= Seq::<(u128, GSubvol)>::empty());
        }
        r
    }

    /// Index of the ledger entry under `id`, if any.
    fn find_id(&self, id: u128) -> (r: Option<usize>)
        ensures
            match r {
                Some(i) => 0 <= i < self@.len() && g_sv_find(self@, id) == i && self@[i as int].0
                    == id,
                None => g_sv_find(self@, id) == -1,
            },
    {
        let mut i: usize = 0;
        while i < self.0.len()
            invariant
                i <= self.0.len(),
                forall|j: int| 0 <= j < i ==> (#[trigger] self@[j]).0 != id,
            decreases self.0.len() - i,
        {
            if self.0[i].0 == id {
                proof {
                    assert(self@[i as int].0 == id);
                    lemma_g_sv_find_at(self@, id, i as int);
                }
                return Some(i);
            }
            proof {
                assert(self@[i as int].0 != id);
            }
            i += 1;
        }
        proof {
            lemma_g_sv_find_absent(self@, id);
        }
        None
    }

    /// The completed subvolume recorded under `id`, if any.
    pub fn get(&self, id: u128) -> (r: Option<&Subvol>)
        ensures
            match r {
                Some(sv) => g_sv_lookup(self@, id) == Some(sv@),
                None => g_sv_lookup(self@, id) is None,
            },
    {
        match self.find_id(id) {
            Some(i) => {
                proof {
                    assert(self@[i as int] == (self.0@[i as int].0, self.0@[i as int].1@));
                }
                Some(&self.0[i].1)
            },
            None => None,
        }
    }

    /// A snapshot batch naming a parent the ledger has never received fails
    /// with `MissingParent`; together with `receive`'s contract, the ledger
    /// is then left exactly as it was, with no partial entry for the failed
    /// batch's own identifier.
    pub proof fn lemma_missing_parent(
        led: GLedger,
        batch: Seq<Command>,
        id: u128,
        parent_id: u128,
    )
        requires
            batch.len() > 0,
            batch[0] == (Command::SnapshotStart { id, parent_id }),
            g_sv_lookup(led, parent_id) is None,
        ensures
            g_receive(led, batch) == Err::<(u128, GSubvol), GErr>(
                GErr::MissingParent { id: parent_id },
            ),
    {
    }

    /// Interpret one command batch and record the resulting subvolume state
    /// under its identifier, overwriting any prior entry with the same one.
    /// A failing batch changes nothing: no partial state is ever committed.
    pub fn receive(&mut self, batch: &Vec<Command>) -> (r: Result<(), Error>)
        requires
            old(self).wf(),
        ensures
            final(self).wf(),
            match g_receive(old(self)@, batch@) {
                Ok(pair) => r is Ok && final(self)@ == g_sv_insert(old(self)@, pair.0, pair.1),
                Err(e) => r matches Err(err) && err@ == e && final(self)@ == old(self)@,
            },
    {
        if batch.len() == 0 {
            return Err(Error::InvariantViolated("batch is empty"));
        }
        let (subvol_id, parent_uuid, mut fs): (u128, Option<u128>, Filesystem) = match &batch[0] {
            Command::SubvolStart { id } => {
                let mut fs = Filesystem::new();
                fs.insert(String::new(), Entry::Directory(Directory::new_default()));
                proof {
                    assert(fs@ =~= g_root_fs());
                }
                (*id, None, fs)
            },
            Command::SnapshotStart { id, parent_id } => match self.find_id(*parent_id) {
                Some(i) => {
                    let fs = self.0[i].1.fs.dup();
                    proof {
                        assert(self@[i as int].1 == self.0@[i as int].1@);
                    }
                    (*id, Some(*parent_id), fs)
                },
                None => {
                    return Err(Error::MissingParent(*parent_id));
                },
            },
            _ => {
                return Err(Error::InvariantViolated("first command was not subvol start"));
            },
        };
        let ghost gstart = fs@;
        proof {
            assert(g_fs_wf(gstart));
            assert(batch@.skip(1) =~= batch@.drop_first());
            assert(g_receive(old(self)@, batch@) == (match g_run(gstart, batch@.drop_first()) {
                Ok(f) => Ok::<(u128, GSubvol), GErr>(
                    (subvol_id, GSubvol { parent_uuid, fs: f }),
                ),
                Err(e) => Err::<(u128, GSubvol), GErr>(e),
            }));
        }
        let mut i: usize = 1;
        while i < batch.len()
            invariant
                1 <= i <= batch.len(),
                g_fs_wf(fs@),
                g_run(fs@, batch@.skip(i as int)) == g_run(gstart, batch@.drop_first()),
                g_receive(old(self)@, batch@) == (match g_run(gstart, batch@.drop_first()) {
                    Ok(f) => Ok::<(u128, GSubvol), GErr>(
                        (subvol_id, GSubvol { parent_uuid, fs: f }),
                    ),
                    Err(e) => Err::<(u128, GSubvol), GErr>(e),
                }),
                self@ == old(self)@,
                self.wf(),
            decreases batch.len() - i,
        {
            let ghost pre = fs@;
            let step = apply_command(&mut fs, &batch[i]);
            proof {
                let rest = batch@.skip(i as int);
                assert(rest[0] == batch@[i as int]);
                assert(rest.drop_first() =~= batch@.skip(i + 1));
            }
            match step {
                Ok(()) => {},
                Err(err) => {
                    proof {
                        assert(g_run(gstart, batch@.drop_first()) == Err::<GFs, GErr>(err@));
                    }
                    return Err(err);
                },
            }
            i += 1;
        }
        proof {
            assert(batch@.skip(batch@.len() as int) =~= Seq::<Command>::empty());
            assert(g_run(gstart, batch@.drop_first()) == Ok::<GFs, GErr>(fs@));
        }
        let sv = Subvol { parent_uuid, fs };
        let ghost gid = subvol_id;
        let ghost gsv = sv@;
        match self.find_id(subvol_id) {
            Some(i) => {
                self.0.set(i, (subvol_id, sv));
                proof {
                    assert forall|j: int|
                        0 <= j < self@.len() implies self@[j] == g_sv_insert(
                        old(self)@,
                        gid,
                        gsv,
                    )[j] by {
                        assert(self@[j] == (self.0@[j].0, self.0@[j].1@));
                    }
                    assert(self@ =~= g_sv_insert(old(self)@, gid, gsv));
                }
            },
            None => {
                self.0.push((subvol_id, sv));
                proof {
                    assert forall|j: int|
                        0 <= j < self@.len() implies self@[j] == g_sv_insert(
                        old(self)@,
                        gid,
                        gsv,
                    )[j] by {
                        assert(self@[j] == (self.0@[j].0, self.0@[j].1@));
                    }
                    assert(self@ =~= g_sv_insert(old(self)@, gid, gsv));
                }
            },
        }
        Ok(())
    }
}

} // verus!
