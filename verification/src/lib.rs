//! Cyberpunk 2077 resource formats: the Kraken byte stream, `.archive`
//! containers, CR2W resources and the documents that are decoded from them.

pub mod archive;
pub mod archive_content_laws;
pub mod archive_frames;
pub mod archive_laws;
pub mod archive_layout_laws;
pub mod archive_pack;
pub mod archive_set;
pub mod archive_writer;
pub mod audit;
pub mod audit_laws;
pub mod audit_page;
pub mod audit_report;
pub mod audit_summary;
pub mod batch;
pub mod binary;
pub mod block_textures;
pub mod codec;
pub mod codec_appendix;
pub mod codec_appendix_laws;
pub mod codec_class_laws;
pub mod codec_curve_laws;
pub mod codec_document;
pub mod codec_document_laws;
pub mod codec_handles;
pub mod codec_leaf_laws;
pub mod codec_reader;
pub mod compression;
pub mod codec_text_laws;
pub mod cr2w;
pub mod cr2w_laws;
pub mod difference;
pub mod entries;
pub mod glb;
pub mod kraken;
pub mod localization;
pub mod localization_laws;
pub mod localization_text_laws;
pub mod localization_writer;
pub mod material;
pub mod material_defaults;
pub mod material_mask;
pub mod material_mask_laws;
pub mod material_read_laws;
pub mod material_records;
pub mod material_sidecar;
pub mod material_texture;
pub mod material_texture_laws;
pub mod mesh;
pub mod mesh_gltf;
pub mod mesh_gltf_laws;
pub mod mesh_laws;
pub mod mesh_stream_laws;
pub mod number_text;
pub mod object_laws;
pub mod pbr;
pub mod pbr_gltf;
pub mod pbr_gltf_laws;
pub mod pbr_laws;
pub mod pbr_layers;
pub mod red_types;
pub mod redpackage;
pub mod redpackage_build;
pub mod redpackage_chunk_laws;
pub mod redpackage_class_laws;
pub mod redpackage_decoder;
pub mod redpackage_document;
pub mod redpackage_document_laws;
pub mod redpackage_effect_laws;
pub mod redpackage_encoder;
pub mod redpackage_expansion_laws;
pub mod redpackage_json;
pub mod redpackage_kept_laws;
pub mod redpackage_laws;
pub mod redpackage_layout_laws;
pub mod redpackage_leaf_laws;
pub mod redpackage_pools;
pub mod redpackage_reader;
pub mod redpackage_round_trip_laws;
pub mod redpackage_state_laws;
pub mod redpackage_stored_laws;
pub mod redpackage_value_laws;
pub mod redpackage_writer;
pub mod redpackage_written_laws;
pub mod schema;
pub mod schema_laws;
pub mod schema_source;
pub mod sequence;
pub mod text;
pub mod value;
