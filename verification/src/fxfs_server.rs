//! What the server of a file system does with the requests that it gets.

use vstd::prelude::*;

verus! {

/// The number of nodes that a file system reports to have room for.
pub const TOTAL_NODES: u64 = 0x7fff_ffff_ffff_ffff;

/// The type of the file system.
pub const VFS_TYPE_FXFS: u32 = 0x73667866;

/// The size of a file system.
#[derive(Clone, Copy, Debug, PartialEq, Eq, Structural)]
pub struct Info {
    pub total_bytes: u64,
    pub used_bytes: u64,
    pub block_size: u64,
}

/// What a file system reports of itself.
#[derive(Clone, Copy, Debug, PartialEq, Eq)]
pub struct FilesystemInfo {
    pub total_bytes: u64,
    pub used_bytes: u64,
    pub total_nodes: u64,
    pub used_nodes: u64,
    pub free_shared_pool_bytes: u64,
    pub fs_id: u64,
    pub block_size: u32,
    pub max_filename_size: u32,
    pub fs_type: u32,
    pub padding: u32,
    pub name: [i8; 32],
}

/// The name of the file system, "fxfs", followed by zeros.
pub open spec fn fxfs_info_name() -> Seq<i8> {
    Seq::new(
        32,
        |i: int|
            if i == 0 {
                0x66i8
            } else if i == 1 {
                0x78i8
            } else if i == 2 {
                0x66i8
            } else if i == 3 {
                0x73i8
            } else {
                0i8
            },
    )
}

impl Info {
    /// Reports the size of a file system with the given number of objects.
    pub fn to_filesystem_info(self, object_count: u64, max_filename: u32) -> (result:
        FilesystemInfo)
        requires
            self.block_size <= u32::MAX,
        ensures
            result.total_bytes == self.total_bytes,
            result.used_bytes == self.used_bytes,
            result.total_nodes == TOTAL_NODES,
            result.used_nodes == object_count,
            result.free_shared_pool_bytes == 0,
            result.fs_id == 0,
            result.block_size == self.block_size,
            result.max_filename_size == max_filename,
            result.fs_type == VFS_TYPE_FXFS,
            result.padding == 0,
            result.name@ == fxfs_info_name(),
    {
        let name: [i8; 32] = [
            0x66,
            0x78,
            0x66,
            0x73,
            0,
            0,
            0,
            0,
            0,
            0,
            0,
            0,
            0,
            0,
            0,
            0,
            0,
            0,
            0,
            0,
            0,
            0,
            0,
            0,
            0,
            0,
            0,
            0,
            0,
            0,
            0,
            0,
        ];
        assert(name@ =~= fxfs_info_name());
        FilesystemInfo {
            total_bytes: self.total_bytes,
            used_bytes: self.used_bytes,
            total_nodes: TOTAL_NODES,
            used_nodes: object_count,
            free_shared_pool_bytes: 0,
            fs_id: 0,
            block_size: self.block_size as u32,
            max_filename_size: max_filename,
            fs_type: VFS_TYPE_FXFS,
            padding: 0,
            name,
        }
    }
}

/// A request of the administration service.
#[derive(Clone, Copy, Debug, PartialEq, Eq, Structural)]
pub enum AdminRequest {
    Shutdown,
    /// A request that the server does not implement.
    Other,
}

/// A request of the query service.
#[derive(Clone, Copy, Debug, PartialEq, Eq, Structural)]
pub enum QueryRequest {
    GetInfo,
    /// A request that the server does not implement.
    Other,
}

/// A step that the server takes.
#[derive(Clone, Copy, Debug, PartialEq, Eq, Structural)]
pub enum ServerAction {
    /// Stop all tasks that serve connections to files.
    ShutdownScope,
    /// Stop the tasks of the volume.
    TerminateVolume,
    /// Close the file system.
    CloseFilesystem,
    /// Answer the request.
    Respond,
}

/// The server of a file system.
#[derive(Clone, Copy, Debug, PartialEq, Eq, Structural)]
pub struct FxfsServer {
    /// The file system was closed, or is about to be.
    pub closed: bool,
}

/// The steps of a shutdown.
pub open spec fn shutdown_actions() -> Seq<ServerAction> {
    seq![
        ServerAction::ShutdownScope,
        ServerAction::TerminateVolume,
        ServerAction::CloseFilesystem,
        ServerAction::Respond,
    ]
}

/// The steps that are left at the end.
pub open spec fn finish_actions(closed: bool) -> Seq<ServerAction> {
    if closed {
        Seq::empty()
    } else {
        seq![ServerAction::TerminateVolume, ServerAction::CloseFilesystem]
    }
}

/// How often a step is taken.
pub open spec fn times_taken(actions: Seq<ServerAction>, action: ServerAction) -> nat
    decreases actions.len(),
{
    if actions.len() == 0 {
        0
    } else if actions.last() == action {
        times_taken(actions.drop_last(), action) + 1
    } else {
        times_taken(actions.drop_last(), action)
    }
}

/// The steps of a run in which a number of shutdowns were requested.
pub open spec fn run_actions(shutdowns: nat) -> Seq<ServerAction>
    decreases shutdowns,
{
    if shutdowns == 0 {
        finish_actions(false)
    } else if shutdowns == 1 {
        shutdown_actions() + finish_actions(true)
    } else {
        shutdown_actions() + run_actions((shutdowns - 1) as nat)
    }
}

proof fn lemma_times_taken(a: Seq<ServerAction>, b: Seq<ServerAction>, action: ServerAction)
    ensures
        times_taken(a + b, action) == times_taken(a, action) + times_taken(b, action),
    decreases b.len(),
{
    if b.len() == 0 {
        assert(a + b =~= a);
    } else {
        assert((a + b).drop_last() =~= a + b.drop_last());
        lemma_times_taken(a, b.drop_last(), action);
    }
}

/// The file system is closed in every run, and the volume is terminated as often: once if the
/// server runs to its end, and otherwise once for each shutdown that is requested.
pub proof fn file_system_is_closed(shutdowns: nat)
    ensures
        times_taken(run_actions(shutdowns), ServerAction::CloseFilesystem) == if shutdowns == 0 {
            1
        } else {
            shutdowns
        },
        times_taken(run_actions(shutdowns), ServerAction::TerminateVolume) == times_taken(
            run_actions(shutdowns),
            ServerAction::CloseFilesystem,
        ),
        times_taken(run_actions(shutdowns), ServerAction::Respond) == shutdowns,
    decreases shutdowns,
{
    reveal_with_fuel(times_taken, 5);
    let s = shutdown_actions();
    let s3 = s.drop_last();
    let s2 = s3.drop_last();
    assert(s2.drop_last() =~= seq![ServerAction::ShutdownScope]);
    assert(s2.drop_last().drop_last() =~= Seq::empty());
    let f = finish_actions(false);
    assert(f.drop_last() =~= seq![ServerAction::TerminateVolume]);
    assert(f.drop_last().drop_last() =~= Seq::empty());
    if shutdowns == 1 {
        assert(s + finish_actions(true) =~= s);
    } else if shutdowns > 1 {
        let rest = run_actions((shutdowns - 1) as nat);
        file_system_is_closed((shutdowns - 1) as nat);
        lemma_times_taken(s, rest, ServerAction::CloseFilesystem);
        lemma_times_taken(s, rest, ServerAction::TerminateVolume);
        lemma_times_taken(s, rest, ServerAction::Respond);
    }
}

/// The file system is closed only after the volume was terminated, in every run.
pub proof fn volume_is_terminated_first(shutdowns: nat, i: int)
    requires
        0 <= i < run_actions(shutdowns).len(),
        run_actions(shutdowns)[i] == ServerAction::CloseFilesystem,
    ensures
        i > 0,
        run_actions(shutdowns)[i - 1] == ServerAction::TerminateVolume,
    decreases shutdowns,
{
    if shutdowns > 1 && i >= 4 {
        volume_is_terminated_first((shutdowns - 1) as nat, i - 4);
    }
}

impl FxfsServer {
    /// Makes a server.
    pub fn new() -> (result: Self)
        ensures
            !result.closed,
    {
        FxfsServer { closed: false }
    }

    /// Handles a request of the administration service. Returns the steps to take, in order, and
    /// whether the connection is to be closed. Only a shutdown can be handled.
    pub fn handle_admin(&mut self, request: AdminRequest) -> (result: (Vec<ServerAction>, bool))
        requires
            request is Shutdown,
        ensures
            final(self).closed,
            result.0@ == shutdown_actions(),
            result.1,
    {
        self.closed = true;
        let mut actions: Vec<ServerAction> = Vec::new();
        actions.push(ServerAction::ShutdownScope);
        actions.push(ServerAction::TerminateVolume);
        actions.push(ServerAction::CloseFilesystem);
        actions.push(ServerAction::Respond);
        (actions, true)
    }

    /// Handles a request of the query service. Returns what is to be sent. Only a question for the
    /// size can be handled.
    pub fn handle_query(
        &self,
        request: QueryRequest,
        info: Info,
        object_count: u64,
        max_filename: u32,
    ) -> (result: FilesystemInfo)
        requires
            request is GetInfo,
            info.block_size <= u32::MAX,
        ensures
            result.total_bytes == info.total_bytes,
            result.used_bytes == info.used_bytes,
            result.total_nodes == TOTAL_NODES,
            result.used_nodes == object_count,
            result.free_shared_pool_bytes == 0,
            result.fs_id == 0,
            result.block_size == info.block_size,
            result.max_filename_size == max_filename,
            result.fs_type == VFS_TYPE_FXFS,
            result.padding == 0,
            result.name@ == fxfs_info_name(),
    {
        info.to_filesystem_info(object_count, max_filename)
    }

    /// The steps that are left once all connections are closed.
    pub fn finish(&self) -> (result: Vec<ServerAction>)
        ensures
            result@ == finish_actions(self.closed),
    {
        let mut actions: Vec<ServerAction> = Vec::new();
        if !self.closed {
            actions.push(ServerAction::TerminateVolume);
            actions.push(ServerAction::CloseFilesystem);
        }
        actions
    }
}

/// A shutdown stops the connections to files first, then terminates the volume, then closes the
/// file system, and answers last. At the end of a run, the volume is terminated and the file system
/// closed unless that was done.
pub proof fn shutdown_is_orderly()
    ensures
        shutdown_actions().len() == 4,
        shutdown_actions().first() == ServerAction::ShutdownScope,
        shutdown_actions()[1] == ServerAction::TerminateVolume,
        shutdown_actions()[2] == ServerAction::CloseFilesystem,
        shutdown_actions().last() == ServerAction::Respond,
        finish_actions(true).len() == 0,
        finish_actions(false).len() == 2,
        finish_actions(false).first() == ServerAction::TerminateVolume,
        finish_actions(false).last() == ServerAction::CloseFilesystem,
{
}

/// The name of the file system is four characters, followed by zeros, and its type is what those
/// spell as a number, the least significant one first. It reports room for as many nodes as a
/// signed number can count.
pub proof fn file_system_is_named()
    ensures
        fxfs_info_name().len() == 32,
        fxfs_info_name()[0] == 'f' as u32,
        fxfs_info_name()[1] == 'x' as u32,
        fxfs_info_name()[2] == 'f' as u32,
        fxfs_info_name()[3] == 's' as u32,
        forall|i: int| 4 <= i < 32 ==> #[trigger] fxfs_info_name()[i] == 0,
        VFS_TYPE_FXFS == fxfs_info_name()[0] + 0x100 * fxfs_info_name()[1] + 0x1_0000
            * fxfs_info_name()[2] + 0x100_0000 * fxfs_info_name()[3],
        TOTAL_NODES == i64::MAX,
{
}

} // verus!
