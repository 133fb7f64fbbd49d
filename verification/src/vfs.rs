//! The file system that programs are loaded from: names that lead to nodes,
//! and nodes that can be read. The only one there is keeps its files in memory.

use vstd::prelude::*;
use vstd::string::StringSliceAdditionalSpecFns;

verus! {

/// A file system: looks names up.
pub trait Fs {
    type NodeType: Node;

    /// What the file named `name` holds, if there is such a file.
    spec fn file(&self, name: Seq<u8>) -> Option<Seq<u8>>;

    /// Looks the file named `name` up.
    fn lookup(&self, name: &str) -> (r: Option<Self::NodeType>)
        ensures
            match r {
                Some(node) => self.file(name.spec_bytes()) == Some(node.content()),
                None => self.file(name.spec_bytes()) is None,
            },
    ;
}

/// A node of a file system: a file that can be read.
pub trait Node {
    /// What the file holds.
    spec fn content(&self) -> Seq<u8>;

    /// The number of the node in its file system.
    spec fn id(&self) -> usize;

    /// The number of the node in its file system.
    fn get_id(&self) -> (r: usize)
        ensures
            r == self.id(),
    ;

    /// Size of the file in bytes.
    fn size(&self) -> (n: usize)
        ensures
            n == self.content().len(),
    ;

    /// Reads the whole file into the front of `buf`. A buffer that is too
    /// short is refused and left as it is.
    fn read(&self, buf: &mut Vec<u8>) -> (r: Result<(), ()>)
        ensures
            r is Ok <==> self.content().len() <= old(buf)@.len(),
            r is Ok ==> final(buf)@ == self.content() + old(buf)@.subrange(
                self.content().len() as int,
                old(buf)@.len() as int,
            ),
            r is Err ==> final(buf)@ == old(buf)@,
    ;
}

/// A file kept in memory.
#[derive(Debug, Clone, Copy)]
pub struct MemoryNode<'a> {
    pub id: usize,
    pub prefix: &'a [u8],
}

impl<'a> MemoryNode<'a> {
    /// The node with number `id` that holds the bytes `prefix`.
    pub fn new(id: usize, prefix: &'a [u8]) -> (n: MemoryNode<'a>)
        ensures
            n.id == id,
            n.prefix@ == prefix@,
    {
        MemoryNode { id, prefix }
    }
}

impl<'a> Node for MemoryNode<'a> {
    open spec fn content(&self) -> Seq<u8> {
        self.prefix@
    }

    open spec fn id(&self) -> usize {
        self.id
    }

    fn get_id(&self) -> (r: usize) {
        self.id
    }

    fn size(&self) -> (n: usize) {
        self.prefix.len()
    }

    fn read(&self, buf: &mut Vec<u8>) -> (r: Result<(), ()>) {
        let n = self.prefix.len();
        if buf.len() < n {
            return Err(());
        }
        let mut k: usize = 0;
        while k < n
            invariant
                k <= n,
                n == self.prefix@.len(),
                buf@.len() == old(buf)@.len(),
                n <= buf@.len(),
                forall|i: int|
                    0 <= i < buf@.len() ==> buf@[i] == if i < k {
                        self.prefix@[i]
                    } else {
                        old(buf)@[i]
                    },
            decreases n - k,
        {
            buf.set(k, self.prefix[k]);
            k += 1;
        }
        proof {
            assert(buf@ =~= self.prefix@ + old(buf)@.subrange(n as int, old(buf)@.len() as int));
        }
        Ok(())
    }
}

/// A named file of a file system in memory.
#[derive(Debug, Clone, Copy)]
pub struct MemoryFile<'a> {
    pub name: &'a str,
    pub data: &'a [u8],
}

/// A file system whose files are kept in memory. Where two files have the
/// same name, the first is the one that the name leads to.
#[derive(Debug)]
pub struct MemoryFs<'a> {
    pub files: Vec<MemoryFile<'a>>,
}

/// Whether file `i` of `files` is the first with the name `name`.
pub open spec fn is_first_named(files: Seq<MemoryFile>, name: Seq<u8>, i: int) -> bool {
    &&& 0 <= i < files.len()
    &&& files[i].name.spec_bytes() == name
    &&& forall|j: int| 0 <= j < i ==> (#[trigger] files[j]).name.spec_bytes() != name
}

/// Whether `files` has a file with the name `name`.
pub open spec fn has_named(files: Seq<MemoryFile>, name: Seq<u8>) -> bool {
    exists|i: int| 0 <= i < files.len() && (#[trigger] files[i]).name.spec_bytes() == name
}

/// Tests two runs of bytes for equality.
pub fn bytes_equal(a: &[u8], b: &[u8]) -> (r: bool)
    ensures
        r == (a@ == b@),
{
    if a.len() != b.len() {
        return false;
    }
    let n = a.len();
    let mut k: usize = 0;
    while k < n
        invariant
            k <= n,
            n == a@.len(),
            n == b@.len(),
            forall|i: int| 0 <= i < k ==> a@[i] == b@[i],
        decreases n - k,
    {
        if a[k] != b[k] {
            return false;
        }
        k += 1;
    }
    proof {
        assert(a@ =~= b@);
    }
    true
}

impl<'a> MemoryFs<'a> {
    /// A file system without files.
    pub fn new() -> (fs: MemoryFs<'a>)
        ensures
            fs.files@.len() == 0,
    {
        MemoryFs { files: Vec::new() }
    }

    /// Adds the file `name` with the content `data` behind the files that
    /// are there.
    pub fn add(&mut self, name: &'a str, data: &'a [u8])
        ensures
            final(self).files@ == old(self).files@.push(MemoryFile { name, data }),
    {
        self.files.push(MemoryFile { name, data });
    }

    /// The index of the first file with the name `name`, if there is one.
    pub fn find(&self, name: &str) -> (r: Option<usize>)
        ensures
            match r {
                Some(i) => is_first_named(self.files@, name.spec_bytes(), i as int),
                None => !has_named(self.files@, name.spec_bytes()),
            },
    {
        let n = self.files.len();
        let mut i: usize = 0;
        while i < n
            invariant
                i <= n,
                n == self.files@.len(),
                forall|j: int|
                    0 <= j < i ==> (#[trigger] self.files@[j]).name.spec_bytes()
                        != name.spec_bytes(),
            decreases n - i,
        {
            if bytes_equal(self.files[i].name.as_bytes(), name.as_bytes()) {
                return Some(i);
            }
            i += 1;
        }
        None
    }
}

impl<'a> Fs for MemoryFs<'a> {
    type NodeType = MemoryNode<'a>;

    open spec fn file(&self, name: Seq<u8>) -> Option<Seq<u8>> {
        if has_named(self.files@, name) {
            Some(
                self.files@[choose|i: int| is_first_named(self.files@, name, i)].data@,
            )
        } else {
            None
        }
    }

    fn lookup(&self, name: &str) -> (r: Option<MemoryNode<'a>>) {
        match self.find(name) {
            None => None,
            Some(i) => {
                proof {
                    let name = name.spec_bytes();
                    assert(is_first_named(self.files@, name, i as int));
                    assert(self.files@[i as int].name.spec_bytes() == name);
                    assert(has_named(self.files@, name));
                    let c = choose|c: int| is_first_named(self.files@, name, c);
                    assert(is_first_named(self.files@, name, c));
                    if c < i {
                        assert(self.files@[c].name.spec_bytes() != name);
                    } else if i < c {
                        assert(self.files@[i as int].name.spec_bytes() != name);
                    }
                    assert(c == i);
                    assert(self.file(name) == Some(self.files@[c].data@));
                }
                let node = MemoryNode::new(i, self.files[i].data);
                assert(node.content() == self.files@[i as int].data@);
                assert(self.file(name.spec_bytes()) == Some(node.content()));
                Some(node)
            },
        }
    }
}

} // verus!
