//! The command-line vocabulary of the surrounding program: which mode to
//! run and with which account. Argument parsing itself is transport work
//! and stays outside the library; it hands a value of these types in.

use vstd::prelude::*;

verus! {

/// The parsed command line.
pub struct Cli {
    /// The mode to run.
    pub command: Commands,
}

/// The modes of operation.
pub enum Commands {
    /// Query and display one balance, once.
    Balance {
        /// The ledger account to query.
        account_id: String,
    },
    /// Watch one account and report balance changes.
    Monitor {
        /// The ledger account to watch.
        account_id: String,
        /// Seconds between polls.
        interval: u64,
    },
    /// Run the multi-subscriber notification service.
    Bot,
    /// Fetch and display recent transactions of one account.
    Txs {
        /// The ledger account to look up.
        account_id: String,
    },
}

} // verus!
