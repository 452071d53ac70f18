pub mod aes_ctr_file;
pub mod archive;
pub mod big_endian;
pub mod blanks;
pub mod cart_save_data;
pub mod chips;
pub mod ciphers;
pub mod clear;
pub mod container;
pub mod containers;
pub mod crc_file;
pub mod crypto;
pub mod db;
pub mod diff;
pub mod difi_layout;
pub mod difi_partition;
pub mod disa;
pub mod dpfs_level;
pub mod dual_file;
pub mod error;
pub mod ext_data;
pub mod ext_file;
pub mod ext_frontend;
pub mod fat;
pub mod fat_list;
pub mod fat_table;
pub mod fields;
pub mod fits;
pub mod frontend;
pub mod fs_info;
pub mod fs_meta;
pub mod fs_tree;
pub mod hashing;
pub mod headers;
pub mod ivfc_level;
pub mod key_engine;
pub mod keys;
pub mod little_endian;
pub mod memory_file;
pub mod meta_list;
pub mod meta_table;
pub mod misc;
pub mod names;
pub mod nand;
pub mod options;
pub mod pad_cache;
pub mod paths;
pub mod places;
pub mod quotas;
pub mod random_access_file;
pub mod resource;
pub mod save_data;
pub mod sd;
pub mod shadow;
pub mod signatures;
pub mod signed_file;
pub mod sizes;
pub mod slots;
pub mod sub_file;
pub mod tables;
pub mod texts;
pub mod transfer;
pub mod trees;
pub mod volume;
pub mod volume_dir;
pub mod volume_format;
pub mod volume_more;
pub mod volume_place;
pub mod volume_same;
pub mod volume_store;
pub mod wear_leveling;
pub mod words;
