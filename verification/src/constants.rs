//! XiK node names for the XML constructs that are not elements.
use vstd::prelude::*;

verus! {

/// Node name for DOCTYPE declarations: `!doctype "html"`.
pub const DOCTYPE_NODE_NAME: &'static str = "!doctype";

/// Node name for XML comments: `! "comment text"`.
pub const COMMENT_NODE_NAME: &'static str = "!";

/// Node name for text content in mixed content: `- "text"`.
pub const TEXT_NODE_NAME: &'static str = "-";

/// Prefix character for processing instructions: `?xml`, `?php`.
pub const PI_PREFIX: char = '?';

} // verus!
