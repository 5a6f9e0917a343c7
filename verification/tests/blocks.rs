use rustycraft::blocks::block::FaceDirections;
use rustycraft::blocks::block_type::{atlas_cell, BlockType, BlockTypeConfigs};
use rustycraft::utils::BlockPos;

const KINDS: [BlockType; 7] = [
    BlockType::Grass,
    BlockType::Dirt,
    BlockType::Water,
    BlockType::Wood,
    BlockType::Leaf,
    BlockType::Stone,
    BlockType::Sand,
];

#[test]
fn ids_name_kinds_back() {
    for (i, kind) in KINDS.iter().enumerate() {
        assert_eq!(kind.to_id(), i as u32);
        assert_eq!(BlockType::from_id(i as u32), *kind);
        assert_eq!(BlockType::from_id(kind.to_id()), *kind);
    }
    assert_eq!(BlockType::MAX_ID, 6);
}

#[test]
fn configs_of_kinds() {
    let grass = BlockTypeConfigs::get(BlockType::Grass);
    assert_eq!(grass.id, 0);
    assert_eq!((grass.textures[0].0, grass.textures[1].0, grass.textures[2].0), (6, 7, 8));
    assert!(!grass.is_translucent);
    let water = BlockType::Water.get_config();
    assert_eq!(water.id, 2);
    assert!(water.is_translucent);
    let wood = BlockType::Wood.get_config();
    assert_eq!((wood.textures[0].0, wood.textures[1].0, wood.textures[2].0), (4, 5, 5));
    for kind in KINDS.iter() {
        assert_eq!(kind.get_config().is_translucent, *kind == BlockType::Water);
    }
}

#[test]
fn face_tiles_and_atlas_cells() {
    assert_eq!(BlockType::Grass.face_texture(FaceDirections::Top), 7);
    assert_eq!(BlockType::Grass.face_texture(FaceDirections::Bottom), 8);
    assert_eq!(BlockType::Grass.face_texture(FaceDirections::Left), 6);
    assert_eq!(atlas_cell(9), (1, 1));
    assert_eq!(atlas_cell(7), (7, 0));
}

#[test]
fn faces_and_their_opposites() {
    let all = FaceDirections::all();
    assert_eq!(
        all,
        [
            FaceDirections::Back,
            FaceDirections::Bottom,
            FaceDirections::Top,
            FaceDirections::Front,
            FaceDirections::Left,
            FaceDirections::Right,
        ]
    );
    for f in all.iter() {
        assert_ne!(f.opposite(), *f);
        assert_eq!(f.opposite().opposite(), *f);
        let n = f.get_normal_vector();
        let o = f.opposite().get_normal_vector();
        assert_eq!(BlockPos::new(-n.x, -n.y, -n.z), o);
    }
    assert_eq!(FaceDirections::Top.get_normal_vector(), BlockPos::new(0, 1, 0));
    assert_eq!(FaceDirections::Back.get_normal_vector(), BlockPos::new(0, 0, 1));
}

#[test]
fn face_indices() {
    assert_eq!(FaceDirections::Back.get_indices(), [7, 6, 5, 7, 5, 4]);
    assert_eq!(FaceDirections::Front.get_indices(), [0, 1, 2, 0, 2, 3]);
    assert_eq!(FaceDirections::Left.get_indices(), [4, 5, 1, 4, 1, 0]);
    assert_eq!(FaceDirections::Right.get_indices(), [3, 2, 6, 3, 6, 7]);
    assert_eq!(FaceDirections::Top.get_indices(), [1, 5, 6, 1, 6, 2]);
    assert_eq!(FaceDirections::Bottom.get_indices(), [4, 0, 3, 4, 3, 7]);
}
