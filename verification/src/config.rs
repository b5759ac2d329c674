//! How the server is run.

use vstd::prelude::*;
use vstd::string::*;

verus! {

/// How clients reach the server.
#[derive(Clone, Copy, Debug, PartialEq, Eq, Structural)]
pub enum Transport {
    Stdio,
    Sse,
}

/// Where the log goes.
#[derive(Clone, Copy, Debug, PartialEq, Eq, Structural)]
pub enum LogDestination {
    Stdout,
    Stderr,
    File,
}

/// Refuses a log that would run into what clients read: standard output belongs to the
/// protocol where clients are reached by it.
pub fn check_logging(transport: Transport, destination: LogDestination) -> (r: Result<(), String>)
    ensures
        match r {
            Ok(_) => !(destination == LogDestination::Stdout && transport == Transport::Stdio),
            Err(message) => destination == LogDestination::Stdout && transport == Transport::Stdio
                && message@
                == "Cannot log to stdout when using stdio transport. Use stderr or file logging."@,
        },
{
    if destination == LogDestination::Stdout && transport == Transport::Stdio {
        Err(
            "Cannot log to stdout when using stdio transport. Use stderr or file logging.".to_string(),
        )
    } else {
        Ok(())
    }
}

/// A log is refused exactly where both it and the protocol would go to standard output.
pub proof fn law_log_keeps_off_the_protocol(
    transport: Transport,
    destination: LogDestination,
    r: Result<(), String>,
)
    requires
        call_ensures(check_logging, (transport, destination), r),
    ensures
        r is Err <==> transport is Stdio && destination is Stdout,
{
}

} // verus!
