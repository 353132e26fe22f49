use vstd::prelude::*;

use crate::resp::{string_lists_view, string_views};
use crate::text::{lowercase, str_eq, to_lowercase, is_ascii_text, ascii_lower};

verus! {

/// A command as a client sent it: its name and its arguments.
pub struct RedisCmd {
    pub cmd: String,
    pub args: Vec<String>,
}

/// Commands as they arrived together.
pub type RedisCmds = Vec<RedisCmd>;

impl View for RedisCmd {
    type V = (Seq<char>, Seq<Seq<char>>);

    open spec fn view(&self) -> (Seq<char>, Seq<Seq<char>>) {
        (self.cmd@, string_views(self.args@))
    }
}

/// The command that a decoded array of strings stands for: the first string names it,
/// the rest are its arguments.
pub open spec fn cmd_of_tokens(t: Seq<Seq<char>>) -> (Seq<char>, Seq<Seq<char>>) {
    (t[0], t.drop_first())
}

/// Turns decoded arrays of strings into commands, one per array, in order: the first
/// string of each names the command, the rest are its arguments. Each array must
/// hold at least one string.
pub fn to_cmds(vec_tokens: Vec<Vec<String>>) -> (r: RedisCmds)
    requires
        forall|i: int| 0 <= i < vec_tokens@.len() ==> #[trigger] vec_tokens@[i]@.len() > 0,
    ensures
        r@.len() == vec_tokens@.len(),
        forall|i: int|
            0 <= i < r@.len() ==> #[trigger] r@[i]@ == cmd_of_tokens(
                string_lists_view(vec_tokens@)[i],
            ),
{
    let mut cmds: Vec<RedisCmd> = Vec::new();
    let mut i: usize = 0;
    while i < vec_tokens.len()
        invariant
            i <= vec_tokens@.len(),
            forall|k: int| 0 <= k < vec_tokens@.len() ==> #[trigger] vec_tokens@[k]@.len() > 0,
            cmds@.len() == i,
            forall|k: int|
                0 <= k < i ==> #[trigger] cmds@[k]@ == cmd_of_tokens(
                    string_lists_view(vec_tokens@)[k],
                ),
        decreases vec_tokens@.len() - i,
    {
        let tokens = &vec_tokens[i];
        let ghost tv = string_views(tokens@);
        let cmd = tokens[0].clone();
        let mut args: Vec<String> = Vec::new();
        let mut j: usize = 1;
        while j < tokens.len()
            invariant
                tv == string_views(tokens@),
                1 <= j <= tokens@.len(),
                args@.len() == j - 1,
                forall|k: int| 0 <= k < j - 1 ==> #[trigger] args@[k]@ == tv[k + 1],
            decreases tokens@.len() - j,
        {
            args.push(tokens[j].clone());
            j = j + 1;
        }
        let c = RedisCmd { cmd, args };
        proof {
            assert(string_views(c.args@) =~= tv.drop_first());
            assert(string_lists_view(vec_tokens@)[i as int] == tv);
        }
        cmds.push(c);
        i = i + 1;
    }
    cmds
}

/// The commands the server knows.
#[derive(Debug, Clone, Copy, PartialEq, Eq)]
pub enum RedisCmdType {
    Ping,
    SetKey,
    Get,
    Ttl,
    Del,
    Expire,
    PExpireAt,
    BgRewriteAOF,
}

/// The command that a lowercased name stands for.
pub open spec fn spec_cmd_type(l: Seq<char>) -> Option<RedisCmdType> {
    if l == "ping"@ {
        Some(RedisCmdType::Ping)
    } else if l == "set"@ {
        Some(RedisCmdType::SetKey)
    } else if l == "get"@ {
        Some(RedisCmdType::Get)
    } else if l == "ttl"@ {
        Some(RedisCmdType::Ttl)
    } else if l == "del"@ {
        Some(RedisCmdType::Del)
    } else if l == "expire"@ {
        Some(RedisCmdType::Expire)
    } else if l == "pexpireat"@ {
        Some(RedisCmdType::PExpireAt)
    } else if l == "bgrewriteaof"@ {
        Some(RedisCmdType::BgRewriteAOF)
    } else {
        None
    }
}

impl RedisCmdType {
    /// The command a name stands for, whatever its case.
    pub fn parse(s: &str) -> (r: Option<RedisCmdType>)
        ensures
            r == spec_cmd_type(lowercase(s@)),
            is_ascii_text(s@) ==> r == spec_cmd_type(ascii_lower(s@)),
    {
        let lower = to_lowercase(s);
        RedisCmdType::from_lowercase(lower.as_str())
    }

    /// The command an already lowercased name stands for.
    pub fn from_lowercase(l: &str) -> (r: Option<RedisCmdType>)
        ensures
            r == spec_cmd_type(l@),
    {
        if str_eq(l, "ping") {
            Some(RedisCmdType::Ping)
        } else if str_eq(l, "set") {
            Some(RedisCmdType::SetKey)
        } else if str_eq(l, "get") {
            Some(RedisCmdType::Get)
        } else if str_eq(l, "ttl") {
            Some(RedisCmdType::Ttl)
        } else if str_eq(l, "del") {
            Some(RedisCmdType::Del)
        } else if str_eq(l, "expire") {
            Some(RedisCmdType::Expire)
        } else if str_eq(l, "pexpireat") {
            Some(RedisCmdType::PExpireAt)
        } else if str_eq(l, "bgrewriteaof") {
            Some(RedisCmdType::BgRewriteAOF)
        } else {
            None
        }
    }
}

} // verus!

