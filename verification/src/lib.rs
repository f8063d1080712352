//! Plans and repairs static copies of websites archived by the Wayback Machine.
pub mod alias_repair;
pub mod assets;
pub mod captures;
pub mod cdx;
pub mod cdx_requests;
pub mod cli;
pub mod css_refs;
pub mod download_refs;
pub mod downloader;
pub mod html;
pub mod link_validation;
pub mod maps;
pub mod navigation;
pub mod noise;
pub mod numbers;
pub mod order;
pub mod output_summary;
pub mod path;
pub mod pathmap;
pub mod recovery;
pub mod retry;
pub mod rewrite;
pub mod scan;
pub mod snapshots;
pub mod soft_redirect;
pub mod text;
pub mod urls;
pub mod wayback_client;
