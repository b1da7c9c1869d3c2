//! Link materialization: the plan that turns a target path into a hard link
//! of its stored copy, and the law that the plan preserves content and makes
//! the two paths aliases of one inode.

use vstd::prelude::*;
use crate::db::Config;

verus! {

/// One filesystem step of a link plan; the caller performs these in order.
pub enum LinkOp {
    /// Copy the bytes at `from` into a (re)created file at `to`.
    CopyFile { from: Vec<u8>, to: Vec<u8> },
    /// Delete the file at `path`.
    RemoveFile { path: Vec<u8> },
    /// Create `link` as a hard link to the inode at `original`.
    HardLink { original: Vec<u8>, link: Vec<u8> },
}

impl Config {
    /// The steps that materialize this entry: capture the target's bytes
    /// into the stored copy, remove the target, re-create it as a hard link
    /// of the copy. A pair whose paths already share an inode needs no step;
    /// skipping them avoids the window in which the target does not exist.
    pub fn link_ops(&self, already_linked: bool) -> (r: Vec<LinkOp>)
        ensures
            already_linked ==> r@.len() == 0,
            !already_linked ==> r@.len() == 3 && (r@[0] matches LinkOp::CopyFile { from, to }
                && from@ == self@.target && to@ == self@.source) && (
            r@[1] matches LinkOp::RemoveFile { path } && path@ == self@.target) && (
            r@[2] matches LinkOp::HardLink { original, link } && original@ == self@.source
                && link@ == self@.target),
    {
        let mut ops: Vec<LinkOp> = Vec::new();
        if already_linked {
            return ops;
        }
        ops.push(LinkOp::CopyFile { from: crate::db::clone_bytes(self.target()), to: crate::db::clone_bytes(self.source()) });
        ops.push(LinkOp::RemoveFile { path: crate::db::clone_bytes(self.target()) });
        ops.push(LinkOp::HardLink { original: crate::db::clone_bytes(self.source()), link: crate::db::clone_bytes(self.target()) });
        ops
    }
}

/// A model of the filesystem fragment the plan touches: which inode each
/// existing path names, and what bytes each inode holds.
pub ghost struct FsModel {
    pub inode_of: Map<Seq<u8>, nat>,
    pub data: Map<nat, Seq<u8>>,
}

impl FsModel {
    /// Every named inode holds data.
    pub open spec fn wf(self) -> bool {
        forall|p: Seq<u8>| self.inode_of.dom().contains(p) ==> self.data.dom().contains(
            #[trigger] self.inode_of[p],
        )
    }

    /// A file exists at `p`.
    pub open spec fn exists_file(self, p: Seq<u8>) -> bool {
        self.inode_of.dom().contains(p)
    }

    /// The bytes read through `p`.
    pub open spec fn read(self, p: Seq<u8>) -> Seq<u8> {
        self.data[self.inode_of[p]]
    }

    /// Copying re-creates `to` as a fresh inode holding `from`'s bytes.
    pub open spec fn copy_file(self, from: Seq<u8>, to: Seq<u8>, fresh: nat) -> FsModel {
        FsModel {
            inode_of: self.inode_of.insert(to, fresh),
            data: self.data.insert(fresh, self.read(from)),
        }
    }

    /// Removal unlinks the path; the inode's data stays for its other names.
    pub open spec fn remove_file(self, p: Seq<u8>) -> FsModel {
        FsModel { inode_of: self.inode_of.remove(p), data: self.data }
    }

    /// Hard-linking gives `link` the very inode `original` names.
    pub open spec fn hard_link(self, original: Seq<u8>, link: Seq<u8>) -> FsModel {
        FsModel { inode_of: self.inode_of.insert(link, self.inode_of[original]), data: self.data }
    }

    /// Writing through `p` replaces the bytes of `p`'s inode.
    pub open spec fn write(self, p: Seq<u8>, content: Seq<u8>) -> FsModel {
        FsModel { inode_of: self.inode_of, data: self.data.insert(self.inode_of[p], content) }
    }
}

/// Link materialization correctness: after capturing the target into the
/// stored copy, removing the target, and hard-linking it back, both paths
/// name one inode, both read the target's original content, a write through
/// either is visible through the other, and every other path is untouched.
///
/// The two hypotheses beyond the target existing are modelling devices:
/// `source != target` holds of every entry the library derives (the source
/// lies under the store, the target outside it), and `fresh` stands for the
/// new inode the copy creates, which by definition held no data before.
pub proof fn lemma_link_materialization(fs: FsModel, source: Seq<u8>, target: Seq<u8>, fresh: nat)
    requires
        fs.wf(),
        fs.exists_file(target),
        !fs.data.dom().contains(fresh),
        source != target,
    ensures
        ({
            let fs3 = fs.copy_file(target, source, fresh).remove_file(target).hard_link(
                source,
                target,
            );
            &&& fs3.wf()
            &&& fs3.exists_file(source)
            &&& fs3.exists_file(target)
            &&& fs3.inode_of[source] == fs3.inode_of[target]
            &&& fs3.read(source) == fs.read(target)
            &&& fs3.read(target) == fs.read(target)
            &&& forall|c: Seq<u8>| #![auto] fs3.write(target, c).read(source) == c
            &&& forall|c: Seq<u8>| #![auto] fs3.write(source, c).read(target) == c
            &&& forall|p: Seq<u8>|
                p != source && p != target ==> ((fs3.exists_file(p) <==> fs.exists_file(p)) && (
                fs3.exists_file(p) ==> #[trigger] fs3.read(p) == fs.read(p)))
        }),
{
    let fs3 = fs.copy_file(target, source, fresh).remove_file(target).hard_link(source, target);
    assert(fs3.inode_of[source] == fresh);
    assert forall|p: Seq<u8>|
        p != source && p != target && fs3.exists_file(p) implies #[trigger] fs3.read(p) == fs.read(
        p,
    ) by {
        assert(fs3.inode_of[p] == fs.inode_of[p]);
        assert(fs.inode_of[p] != fresh);
    }
}

} // verus!
