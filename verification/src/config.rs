//! The configuration of a node's process.

use std::ops::Range;

use vstd::prelude::*;

use crate::error::{Error, ErrorView, Result};
use crate::raft::ids::NodeID;
use crate::raft::model::{Options, Ticks};
use crate::text::{same_text, starts_with, strip_prefix, text_views};

verus! {

/// The configuration of a node.
#[derive(Clone, Debug)]
pub struct NodeFileConfig {
    pub node: NodeSection,
    /// The peers. A node without any is alone and leads at once.
    pub peers: Vec<PeerSection>,
    pub options: OptionsSection,
}

#[derive(Clone, Debug)]
pub struct NodeSection {
    pub id: NodeID,
    /// The address to listen on, such as `127.0.0.1:7001`.
    pub listen: String,
    /// The directory of the log and the snapshots.
    pub data_dir: String,
}

#[derive(Clone, Debug)]
pub struct PeerSection {
    pub id: NodeID,
    pub addr: String,
}

/// The options of a node.
#[derive(Clone, Debug)]
pub struct OptionsSection {
    pub heartbeat_interval: Ticks,
    pub election_timeout_min: Ticks,
    pub election_timeout_max: Ticks,
    pub max_append_entries: usize,
    pub pre_vote: bool,
    pub check_quorum: bool,
    /// How many applied entries trigger a snapshot; 0 for never.
    pub snapshot_threshold: u64,
}

pub fn default_heartbeat() -> (r: Ticks)
    ensures
        r == 2,
{
    2
}

pub fn default_election_min() -> (r: Ticks)
    ensures
        r == 5,
{
    5
}

pub fn default_election_max() -> (r: Ticks)
    ensures
        r == 10,
{
    10
}

pub fn default_max_append() -> (r: usize)
    ensures
        r == 100,
{
    100
}

pub fn default_true() -> (r: bool)
    ensures
        r,
{
    true
}

pub fn default_snapshot_threshold() -> (r: u64)
    ensures
        r == 1000,
{
    1000
}

impl Default for OptionsSection {
    fn default() -> (r: OptionsSection)
        ensures
            r == (OptionsSection {
                heartbeat_interval: 2,
                election_timeout_min: 5,
                election_timeout_max: 10,
                max_append_entries: 100,
                pre_vote: true,
                check_quorum: true,
                snapshot_threshold: 1000,
            }),
    {
        OptionsSection {
            heartbeat_interval: default_heartbeat(),
            election_timeout_min: default_election_min(),
            election_timeout_max: default_election_max(),
            max_append_entries: default_max_append(),
            pre_vote: true,
            check_quorum: true,
            snapshot_threshold: default_snapshot_threshold(),
        }
    }
}

impl OptionsSection {
    /// The options of the node. The election timeouts have to make up a range.
    pub fn to_options(&self) -> (r: Options)
        requires
            self.election_timeout_min < self.election_timeout_max,
        ensures
            r == (Options {
                heartbeat_interval: self.heartbeat_interval,
                election_timeout_range: (Range {
                    start: self.election_timeout_min,
                    end: self.election_timeout_max,
                }),
                max_append_entries: self.max_append_entries,
                pre_vote: self.pre_vote,
                check_quorum: self.check_quorum,
                snapshot_threshold: self.snapshot_threshold,
            }),
    {
        Options {
            heartbeat_interval: self.heartbeat_interval,
            election_timeout_range: Range {
                start: self.election_timeout_min,
                end: self.election_timeout_max,
            },
            max_append_entries: self.max_append_entries,
            pre_vote: self.pre_vote,
            check_quorum: self.check_quorum,
            snapshot_threshold: self.snapshot_threshold,
        }
    }
}

impl NodeFileConfig {
    /// Whether the node is among its own peers.
    pub open spec fn has_itself(&self) -> bool {
        exists|i: int| 0 <= i < self.peers@.len() && (#[trigger] self.peers@[i]).id == self.node.id
    }

    /// Refuses a configuration in which the node is among its own peers.
    pub fn check(&self) -> (r: Result<()>)
        ensures
            match r {
                Ok(()) => !self.has_itself(),
                Err(e) => self.has_itself() && e@ == ErrorView::InvalidInput(
                    "node id must not appear in peers"@,
                ),
            },
    {
        let mut i: usize = 0;
        while i < self.peers.len()
            invariant
                i <= self.peers@.len(),
                forall|k: int| 0 <= k < i ==> (#[trigger] self.peers@[k]).id != self.node.id,
            decreases self.peers@.len() - i,
        {
            if self.peers[i].id == self.node.id {
                return Err(Error::InvalidInput("node id must not appear in peers".to_string()));
            }
            i = i + 1;
        }
        Ok(())
    }
}

/// The path of the configuration that the arguments name, from `at` on: with
/// `--config` or `-c` before it, or `--config=` in front of it.
pub open spec fn named_config(args: Seq<Seq<char>>, at: int) -> Seq<char>
    decreases args.len() - at,
{
    if at >= args.len() {
        "config/node1.yaml"@
    } else if args[at] == "--config"@ || args[at] == "-c"@ {
        if at + 1 < args.len() {
            args[at + 1]
        } else {
            "config/node1.yaml"@
        }
    } else if starts_with(args[at], "--config="@) {
        args[at].skip("--config="@.len() as int)
    } else {
        named_config(args, at + 1)
    }
}

/// The path of the configuration: the one that the arguments name, or the default.
pub fn parse_config_path(args: &Vec<String>) -> (r: String)
    ensures
        r@ == named_config(text_views(args@), 0),
{
    let ghost views = text_views(args@);
    let mut i: usize = 0;
    while i < args.len()
        invariant
            i <= args@.len(),
            views == text_views(args@),
            named_config(views, 0) == named_config(views, i as int),
        decreases args@.len() - i,
    {
        assert(views[i as int] == args@[i as int]@);
        let arg = args[i].as_str();
        if same_text(arg, "--config") || same_text(arg, "-c") {
            if i + 1 < args.len() {
                assert(views[i + 1] == args@[i + 1]@);
                return args[i + 1].clone();
            }
            return "config/node1.yaml".to_string();
        }
        match strip_prefix(arg, "--config=") {
            Some(path) => return path,
            None => {},
        }
        i = i + 1;
    }
    "config/node1.yaml".to_string()
}

} // verus!
