//! Passive extraction of SQL text from captured Microsoft SQL Server (TDS)
//! network traffic.
//!
//! The pipeline: dissect raw Ethernet/IPv4/TCP frames, reassemble the
//! client-to-server byte stream per flow, carve TDS messages out of the
//! reassembled stream, decode the SQL text carried in SQLBatch and RPC
//! messages, and emit deduplicated SQL events.

pub mod extractor;
pub mod jsonl;
pub mod log;
pub mod output;
pub mod tcp;
pub mod tds;
pub mod text;

pub use extractor::{Extractor, dissect_frame};
pub use jsonl::{parse_event, serialize_event};
pub use log::{format_hex_dump, format_log_entry, format_raw_log_entry};
pub use output::{
    CivilTime, SqlEvent, extract_operations, extract_table_name, extract_tables_from_sql,
};
pub use tcp::{FlowId, TcpReassembler, TcpSegment};
pub use tds::{TdsHeader, TdsPacketType, TdsParser};
