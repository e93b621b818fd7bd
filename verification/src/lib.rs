//! Photo metadata editing: EXIF, XMP, IPTC and GPX logic over plain bytes and
//! text, with every operation stated in a contract and proved.

pub mod applycmd;
pub mod applylaws;
pub mod bytes;
pub mod cli;
pub mod copylaws;
pub mod deltalaws;
pub mod editcmd;
pub mod editlaws;
pub mod exif;
pub mod fieldlaws;
pub mod filecmd;
pub mod filelaws;
pub mod formatlaws;
pub mod geotag;
pub mod gpx;
pub mod intake;
pub mod intakelaws;
pub mod iptc;
pub mod iptclaws;
pub mod jpeg;
pub mod jxl;
pub mod namedate;
pub mod outcome;
pub mod packetlaws;
pub mod pieces;
pub mod png;
pub mod reportcmd;
pub mod reportlaws;
pub mod scan;
pub mod showcmd;
pub mod showlaws;
pub mod stamp;
pub mod tagcmd;
pub mod taglaws;
pub mod tags;
pub mod tagtext;
pub mod text;
pub mod textlaws;
pub mod timecmd;
pub mod timelaws;
pub mod timeop;
pub mod tracklaws;
pub mod valuelaws;
pub mod webp;
pub mod whereexpr;
pub mod wherelaws;
pub mod xml;
pub mod xmp;
pub mod xmpedits;
pub mod xmpeffects;
pub mod xmplaws;
pub mod zonelaws;
