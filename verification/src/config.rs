//! Configuration of the bridge.

use vstd::prelude::*;
use crate::text;

verus! {

/// What the bridge is told on its command line or in its environment.
#[derive(Debug, Clone)]
pub struct Config {
    /// PIVX node RPC URL
    pub rpc_url: String,
    /// RPC username
    pub rpc_user: String,
    /// RPC password
    pub rpc_pass: String,
    /// Testnet RPC URL (enables /testnet/ routes)
    pub testnet_rpc_url: Option<String>,
    /// Testnet RPC username
    pub testnet_rpc_user: Option<String>,
    /// Testnet RPC password
    pub testnet_rpc_pass: Option<String>,
    /// ZMQ endpoint for hashblock notifications
    pub zmq_url: String,
    /// HTTP server port
    pub port: u16,
    /// Comma-separated list of allowed RPC methods for the proxy
    pub allowed_rpcs: String,
    /// Sapling activation height (mainnet)
    pub sapling_height: u32,
    /// Disable gzip compression (use when behind nginx or another compressing proxy)
    pub no_compression: bool,
}

/// Each of `s` without the white space around it.
pub open spec fn all_trimmed(s: Seq<Seq<char>>) -> Seq<Seq<char>> {
    Seq::new(s.len(), |k: int| text::trimmed(s[k]))
}

impl Config {
    /// The allowed RPC methods: the pieces between the commas, without the white
    /// space around them.
    pub fn allowed_rpc_set(&self) -> (methods: Vec<String>)
        ensures
            text::texts(methods@) == all_trimmed(text::pieces(self.allowed_rpcs@, ',')),
    {
        let pieces = text::split(self.allowed_rpcs.as_str(), ',');
        let mut methods: Vec<String> = Vec::new();
        let mut k: usize = 0;
        while k < pieces.len()
            invariant
                k <= pieces@.len(),
                methods@.len() == k,
                forall|j: int|
                    0 <= j < k ==> (#[trigger] methods@[j])@ == text::trimmed(pieces@[j]@),
            decreases pieces@.len() - k,
        {
            methods.push(text::trim(pieces[k].as_str()));
            k = k + 1;
        }
        proof {
            let expected = all_trimmed(text::pieces(self.allowed_rpcs@, ','));
            assert(text::texts(pieces@) == text::pieces(self.allowed_rpcs@, ','));
            assert forall|j: int| 0 <= j < k implies text::texts(methods@)[j] == expected[j] by {
                assert(text::texts(pieces@)[j] == pieces@[j]@);
            }
            assert(text::texts(methods@) =~= expected);
        }
        methods
    }
}

impl Default for Config {
    /// What holds where nothing is configured.
    fn default() -> (config: Config)
        ensures
            config.rpc_url@ == "http://127.0.0.1:51473"@,
            config.rpc_user@ == "rpc"@,
            config.rpc_pass@ == "rpc"@,
            config.testnet_rpc_url is None,
            config.testnet_rpc_user is None,
            config.testnet_rpc_pass is None,
            config.zmq_url@ == "tcp://127.0.0.1:28332"@,
            config.port == 3000,
            config.allowed_rpcs@
                == "getblockcount,getblockhash,getblock,getrawtransaction,sendrawtransaction,getmasternodecount,listmasternodes,getbudgetprojection,getbudgetinfo,getbudgetvotes"@,
            config.sapling_height == 2_700_501,
            !config.no_compression,
    {
        Config {
            rpc_url: "http://127.0.0.1:51473".to_string(),
            rpc_user: "rpc".to_string(),
            rpc_pass: "rpc".to_string(),
            testnet_rpc_url: None,
            testnet_rpc_user: None,
            testnet_rpc_pass: None,
            zmq_url: "tcp://127.0.0.1:28332".to_string(),
            port: 3000,
            allowed_rpcs: "getblockcount,getblockhash,getblock,getrawtransaction,sendrawtransaction,getmasternodecount,listmasternodes,getbudgetprojection,getbudgetinfo,getbudgetvotes".to_string(),
            sapling_height: 2_700_501,
            no_compression: false,
        }
    }
}

/// The methods that a list allows are its entries, in their order, each without the
/// white space around it: an entry that holds no comma is one method.
pub proof fn law_allowed_methods(entries: Seq<Seq<char>>)
    requires
        entries.len() > 0,
        forall|k: int| 0 <= k < entries.len() ==> !(#[trigger] entries[k]).contains(','),
    ensures
        ({
            let methods = all_trimmed(text::pieces(text::joined(entries, ','), ','));
            &&& methods.len() == entries.len()
            &&& forall|k: int|
                0 <= k < entries.len() ==> #[trigger] methods[k] == text::trimmed(entries[k])
        }),
{
    text::law_joined_splits_again(entries, ',');
}

} // verus!
