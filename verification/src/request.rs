//! From the flags of a command line to the one request that the
//! dispatcher takes.

use vstd::prelude::*;
use vstd::string::StrSliceExecFns;
use vstd::string::StringExecFns;
use crate::archive::texts;
use crate::error::ArchiveError;
use crate::rename::pair_views;
use crate::rename::RenamePair;
use crate::rename::RenameView;

verus! {

/// The logical operations on an archive.
#[derive(Clone, Copy, Debug, PartialEq, Eq, Structural)]
pub enum Operation {
    Add,
    Extract,
    List,
    Test,
    Delete,
    Rename,
    Hash,
}

impl Operation {
    /// Whether the operation only reads the archive.
    pub open spec fn reads_only(self) -> bool {
        self == Operation::List || self == Operation::Extract || self == Operation::Test || self
            == Operation::Hash
    }

    /// Whether the operation only reads the archive.
    pub fn is_read_only(&self) -> (yes: bool)
        ensures
            yes == self.reads_only(),
    {
        match self {
            Operation::List => true,
            Operation::Extract => true,
            Operation::Test => true,
            Operation::Hash => true,
            _ => false,
        }
    }
}

/// One request: the archive, the operation, and what the operation is
/// given to work on.
#[derive(Debug)]
pub struct OperationRequest {
    pub archive_path: String,
    pub operation: Operation,
    /// The files or entries that the operation names.
    pub files: Option<Vec<String>>,
    /// For a rename, the old and new paths.
    pub renames: Option<Vec<RenamePair>>,
    /// For an extract, whether entries keep their directories.
    pub full_paths: bool,
    /// Whether the leading bytes are to be looked at even where the name
    /// tells the format.
    pub reverify: bool,
}

/// A request as contracts speak of it.
pub struct RequestView {
    pub archive_path: Seq<char>,
    pub operation: Operation,
    pub files: Option<Seq<Seq<char>>>,
    pub renames: Option<Seq<RenameView>>,
    pub full_paths: bool,
    pub reverify: bool,
}

impl View for OperationRequest {
    type V = RequestView;

    open spec fn view(&self) -> RequestView {
        RequestView {
            archive_path: self.archive_path@,
            operation: self.operation,
            files: match self.files {
                Some(names) => Some(texts(names@)),
                None => None,
            },
            renames: match self.renames {
                Some(pairs) => Some(pair_views(pairs@)),
                None => None,
            },
            full_paths: self.full_paths,
            reverify: self.reverify,
        }
    }
}

/// What the flags ask for.
#[derive(Debug)]
pub enum Command {
    /// Carry out the request.
    Run(OperationRequest),
    /// Show what the program is and which formats it supports.
    ShowInfo,
}

/// A command as contracts speak of it.
pub enum CommandView {
    Run(RequestView),
    ShowInfo,
}

impl View for Command {
    type V = CommandView;

    open spec fn view(&self) -> CommandView {
        match self {
            Command::Run(request) => CommandView::Run(request@),
            Command::ShowInfo => CommandView::ShowInfo,
        }
    }
}

/// Why the flags give no command.
#[derive(Clone, Copy, Debug, PartialEq, Eq, Structural)]
pub enum ArgsError {
    /// Files are to be added and none is named.
    MissingTarget,
    /// An operation is asked for and no archive is named.
    MissingArchive,
    /// The flag asks for what is not offered.
    NotSupported,
    /// The flags ask for nothing, or for what the files given cannot serve.
    Invalid,
}

/// The flags and names of a command line, as they were given.
#[derive(Debug)]
pub struct Args {
    pub add: Option<bool>,
    pub benchmark: Option<bool>,
    pub delete: Option<bool>,
    pub extract: Option<bool>,
    pub hash: Option<bool>,
    pub info: Option<bool>,
    pub list: Option<bool>,
    pub rename: Option<bool>,
    pub test: Option<bool>,
    pub update: Option<bool>,
    pub full_extract: Option<bool>,
    pub archive_name: Option<String>,
    pub files: Option<String>,
}

/// The flags and names as contracts speak of them.
pub struct ArgsView {
    pub add: Option<bool>,
    pub benchmark: Option<bool>,
    pub delete: Option<bool>,
    pub extract: Option<bool>,
    pub hash: Option<bool>,
    pub info: Option<bool>,
    pub list: Option<bool>,
    pub rename: Option<bool>,
    pub test: Option<bool>,
    pub update: Option<bool>,
    pub full_extract: Option<bool>,
    pub archive_name: Option<Seq<char>>,
    pub files: Option<Seq<char>>,
}

impl View for Args {
    type V = ArgsView;

    open spec fn view(&self) -> ArgsView {
        ArgsView {
            add: self.add,
            benchmark: self.benchmark,
            delete: self.delete,
            extract: self.extract,
            hash: self.hash,
            info: self.info,
            list: self.list,
            rename: self.rename,
            test: self.test,
            update: self.update,
            full_extract: self.full_extract,
            archive_name: match self.archive_name {
                Some(name) => Some(name@),
                None => None,
            },
            files: match self.files {
                Some(names) => Some(names@),
                None => None,
            },
        }
    }
}

/// The pieces of a list between its commas. A list with n commas has
/// n + 1 pieces, empty ones among them where commas meet or stand at an
/// end.
pub open spec fn split_commas(list: Seq<char>) -> Seq<Seq<char>>
    decreases list.len(),
{
    if list.len() == 0 {
        seq![Seq::<char>::empty()]
    } else {
        let front = split_commas(list.drop_last());
        if list.last() == ',' {
            front.push(Seq::<char>::empty())
        } else {
            front.drop_last().push(front.last().push(list.last()))
        }
    }
}

/// Old and new path, two names at a time.
pub open spec fn paired(names: Seq<Seq<char>>) -> Seq<RenameView> {
    Seq::new(names.len() / 2, |k: int| RenameView { from: names[2 * k], to: names[2 * k + 1] })
}

/// A flag counts where it is given and true.
pub open spec fn is_set(flag: Option<bool>) -> bool {
    flag == Some(true)
}

/// The request for an operation on the archive that the flags name.
pub open spec fn request_for(
    args: ArgsView,
    operation: Operation,
    files: Option<Seq<Seq<char>>>,
    renames: Option<Seq<RenameView>>,
    full_paths: bool,
) -> Result<CommandView, ArgsError> {
    match args.archive_name {
        None => Err(ArgsError::MissingArchive),
        Some(name) => Ok(
            CommandView::Run(
                RequestView {
                    archive_path: name,
                    operation,
                    files,
                    renames,
                    full_paths,
                    reverify: operation == Operation::Test,
                },
            ),
        ),
    }
}

/// The names in the flags' file list, if one is given.
pub open spec fn named_files(args: ArgsView) -> Option<Seq<Seq<char>>> {
    match args.files {
        Some(list) => Some(split_commas(list)),
        None => None,
    }
}

/// What the flags ask for. Where several are set, the first in this order
/// decides: add, benchmark, delete, extract, extract with full paths, hash,
/// info, list, rename, test, update. Delete, hash and rename count only
/// where files are named; a rename takes its names two at a time.
pub open spec fn decided(args: ArgsView) -> Result<CommandView, ArgsError> {
    if is_set(args.add) {
        if args.files.is_none() {
            Err(ArgsError::MissingTarget)
        } else {
            request_for(args, Operation::Add, named_files(args), None, false)
        }
    } else if is_set(args.benchmark) {
        Err(ArgsError::NotSupported)
    } else if is_set(args.delete) && args.files.is_some() {
        request_for(args, Operation::Delete, named_files(args), None, false)
    } else if is_set(args.extract) {
        request_for(args, Operation::Extract, named_files(args), None, false)
    } else if is_set(args.full_extract) {
        request_for(args, Operation::Extract, named_files(args), None, true)
    } else if is_set(args.hash) && args.files.is_some() {
        request_for(args, Operation::Hash, named_files(args), None, false)
    } else if is_set(args.info) {
        Ok(CommandView::ShowInfo)
    } else if is_set(args.list) {
        request_for(args, Operation::List, None, None, false)
    } else if is_set(args.rename) && args.files.is_some() {
        let names = split_commas(args.files.unwrap());
        if names.len() % 2 != 0 {
            Err(ArgsError::Invalid)
        } else {
            request_for(args, Operation::Rename, None, Some(paired(names)), false)
        }
    } else if is_set(args.test) {
        request_for(args, Operation::Test, None, None, false)
    } else if is_set(args.update) {
        Err(ArgsError::NotSupported)
    } else {
        Err(ArgsError::Invalid)
    }
}

/// A list has at least one piece.
pub proof fn lemma_split_nonempty(list: Seq<char>)
    ensures
        split_commas(list).len() >= 1,
    decreases list.len(),
{
    if list.len() > 0 {
        lemma_split_nonempty(list.drop_last());
    }
}

/// Cuts a list at its commas.
pub fn split_file_list(list: &str) -> (names: Vec<String>)
    ensures
        texts(names@) == split_commas(list@),
        names@.len() >= 1,
{
    let n: usize = list.unicode_len();
    let mut names: Vec<String> = Vec::new();
    let mut start: usize = 0;
    let mut i: usize = 0;
    proof {
        assert(list@.take(0) =~= Seq::<char>::empty());
        assert(list@.subrange(0, 0) =~= Seq::<char>::empty());
        assert(texts(names@).push(list@.subrange(0, 0)) =~= seq![Seq::<char>::empty()]);
    }
    while i < n
        invariant
            start <= i <= n,
            n == list@.len(),
            split_commas(list@.take(i as int)) == texts(names@).push(
                list@.subrange(start as int, i as int),
            ),
        decreases n - i,
    {
        let ghost before = texts(names@);
        let ghost piece = list@.subrange(start as int, i as int);
        proof {
            assert(list@.take(i + 1).drop_last() =~= list@.take(i as int));
            assert(list@.take(i + 1).last() == list@[i as int]);
            assert(before.push(piece).drop_last() =~= before);
            assert(before.push(piece).last() == piece);
        }
        if list.get_char(i) == ',' {
            names.push(String::from_str(list.substring_char(start, i)));
            proof {
                assert(texts(names@) =~= before.push(piece));
                assert(list@.subrange(i + 1, i + 1) =~= Seq::<char>::empty());
            }
            start = i + 1;
        } else {
            proof {
                assert(piece.push(list@[i as int]) =~= list@.subrange(start as int, i + 1));
            }
        }
        i += 1;
    }
    let ghost before = texts(names@);
    names.push(String::from_str(list.substring_char(start, n)));
    proof {
        assert(list@.take(n as int) =~= list@);
        assert(texts(names@) =~= before.push(list@.subrange(start as int, n as int)));
    }
    names
}

/// Takes names two at a time as old and new path.
pub fn pair_up(names: Vec<String>) -> (pairs: Vec<RenamePair>)
    requires
        names@.len() % 2 == 0,
    ensures
        pair_views(pairs@) == paired(texts(names@)),
{
    let ghost all = texts(names@);
    let mut pairs: Vec<RenamePair> = Vec::new();
    let mut k: usize = 0;
    while 2 * k < names.len()
        invariant
            2 * k <= names.len(),
            names@.len() % 2 == 0,
            all == texts(names@),
            pairs@.len() == k,
            forall|j: int|
                0 <= j < k ==> (#[trigger] pairs@[j])@ == (RenameView {
                    from: all[2 * j],
                    to: all[2 * j + 1],
                }),
        decreases names.len() - 2 * k,
    {
        proof {
            assert(all[2 * k as int] == names@[2 * k as int]@);
            assert(all[2 * k + 1] == names@[2 * k + 1]@);
        }
        pairs.push(RenamePair { from: names[2 * k].clone(), to: names[2 * k + 1].clone() });
        k += 1;
    }
    proof {
        assert(pair_views(pairs@) =~= paired(all));
    }
    pairs
}

fn flag(value: Option<bool>) -> (set: bool)
    ensures
        set == is_set(value),
{
    match value {
        Some(true) => true,
        _ => false,
    }
}

fn build_request(
    args: &Args,
    operation: Operation,
    files: Option<Vec<String>>,
    renames: Option<Vec<RenamePair>>,
    full_paths: bool,
) -> (result: Result<Command, ArgsError>)
    ensures
        match result {
            Ok(command) => request_for(
                args@,
                operation,
                (match files {
                    Some(names) => Some(texts(names@)),
                    None => None,
                }),
                (match renames {
                    Some(pairs) => Some(pair_views(pairs@)),
                    None => None,
                }),
                full_paths,
            ) == Ok::<CommandView, ArgsError>(command@),
            Err(e) => request_for(
                args@,
                operation,
                (match files {
                    Some(names) => Some(texts(names@)),
                    None => None,
                }),
                (match renames {
                    Some(pairs) => Some(pair_views(pairs@)),
                    None => None,
                }),
                full_paths,
            ) == Err::<CommandView, ArgsError>(e),
        },
{
    match &args.archive_name {
        None => Err(ArgsError::MissingArchive),
        Some(name) => {
            let reverify = match operation {
                Operation::Test => true,
                _ => false,
            };
            Ok(
                Command::Run(
                    OperationRequest {
                        archive_path: name.clone(),
                        operation,
                        files,
                        renames,
                        full_paths,
                        reverify,
                    },
                ),
            )
        },
    }
}

fn files_of_args(args: &Args) -> (files: Option<Vec<String>>)
    ensures
        (match files {
            Some(names) => Some(texts(names@)),
            None => None,
        }) == named_files(args@),
{
    match &args.files {
        Some(list) => Some(split_file_list(list.as_str())),
        None => None,
    }
}

/// Decides what the flags ask for: one request, the information screen,
/// or the reason why neither.
pub fn handle_args(args: &Args) -> (result: Result<Command, ArgsError>)
    ensures
        match result {
            Ok(command) => decided(args@) == Ok::<CommandView, ArgsError>(command@),
            Err(e) => decided(args@) == Err::<CommandView, ArgsError>(e),
        },
{
    if flag(args.add) {
        if args.files.is_none() {
            Err(ArgsError::MissingTarget)
        } else {
            build_request(args, Operation::Add, files_of_args(args), None, false)
        }
    } else if flag(args.benchmark) {
        Err(ArgsError::NotSupported)
    } else if flag(args.delete) && args.files.is_some() {
        build_request(args, Operation::Delete, files_of_args(args), None, false)
    } else if flag(args.extract) {
        build_request(args, Operation::Extract, files_of_args(args), None, false)
    } else if flag(args.full_extract) {
        build_request(args, Operation::Extract, files_of_args(args), None, true)
    } else if flag(args.hash) && args.files.is_some() {
        build_request(args, Operation::Hash, files_of_args(args), None, false)
    } else if flag(args.info) {
        Ok(Command::ShowInfo)
    } else if flag(args.list) {
        build_request(args, Operation::List, None, None, false)
    } else if flag(args.rename) && args.files.is_some() {
        match files_of_args(args) {
            Some(names) => {
                if names.len() % 2 != 0 {
                    Err(ArgsError::Invalid)
                } else {
                    build_request(args, Operation::Rename, None, Some(pair_up(names)), false)
                }
            },
            None => Err(ArgsError::Invalid),
        }
    } else if flag(args.test) {
        build_request(args, Operation::Test, None, None, false)
    } else if flag(args.update) {
        Err(ArgsError::NotSupported)
    } else {
        Err(ArgsError::Invalid)
    }
}

/// Whether every file of the list was found. `present` says of each name
/// of the list, in order, whether a file stands there.
pub fn add_files(files: &str, present: &Vec<bool>) -> (result: Result<Vec<String>, ArchiveError>)
    requires
        present@.len() == split_commas(files@).len(),
    ensures
        match result {
            Ok(names) => texts(names@) == split_commas(files@) && forall|i: int|
                0 <= i < present@.len() ==> present@[i],
            Err(e) => e == ArchiveError::TargetMissing && exists|i: int|
                0 <= i < present@.len() && !present@[i],
        },
{
    let names = split_file_list(files);
    let mut i: usize = 0;
    while i < present.len()
        invariant
            i <= present.len(),
            forall|j: int| 0 <= j < i ==> present@[j],
        decreases present.len() - i,
    {
        if !present[i] {
            return Err(ArchiveError::TargetMissing);
        }
        i += 1;
    }
    Ok(names)
}

} // verus!
