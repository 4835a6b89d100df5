pub mod frame;
pub mod encode;
pub mod wire;
pub mod order;
pub mod codec;
pub mod decode;
pub mod laws;
pub mod eq;
pub mod backend;
pub mod cmd;

pub use frame::BulkString;
pub use frame::MapEntry;
pub use frame::RespArray;
pub use frame::RespDouble;
pub use frame::RespFrame;
pub use frame::RespMap;
pub use frame::RespNull;
pub use frame::RespNullArray;
pub use frame::RespNullBulkString;
pub use frame::RespSet;
pub use frame::SimpleError;
pub use frame::SimpleString;
pub use encode::RespEncode;
pub use wire::RespError;
pub use decode::RespDecode;
pub use decode::RespDecodeV2;
pub use backend::Backend;
pub use cmd::CommandError;
pub use cmd::CommandExecutor;
pub use cmd::Echo;
pub use cmd::SAdd;
pub use cmd::SIsMember;
pub use backend::shard_index;
