use wap::utils::size_of;
use wap::wwd::ds::{
    PlaneHead, PlaneObjectProperties, RawWwdHeader, TilePropertiesDouble, TilePropertiesHead,
    TilePropertiesSingle,
};
use wap::res::reader::{NodeHead, NodePosition};

#[test]
fn pid_struct_sizes() {
    assert_eq!(32, size_of::<wap::pid::ds::Head>());
}

#[test]
fn reader_struct_sizes() {
    assert_eq!(size_of::<wap::res::reader::Header>(), 131);
    assert_eq!(size_of::<NodeHead>(), 16);
    assert_eq!(size_of::<NodePosition>(), 8);
}

#[test]
fn ds_struct_sizes() {
    assert_eq!(8, size_of::<wap::wwd::ds::Head>());
    assert_eq!(1524, size_of::<wap::wwd::ds::Head>() + size_of::<RawWwdHeader>());
    assert_eq!(160, size_of::<PlaneHead>());
    assert_eq!(284, size_of::<PlaneObjectProperties>());
    assert_eq!(12, size_of::<TilePropertiesHead>());
    assert_eq!(20, size_of::<TilePropertiesSingle>());
    assert_eq!(40, size_of::<TilePropertiesDouble>());
}

#[test]
fn ani_struct_sizes() {
    assert_eq!(size_of::<wap::ani::ds::Header>(), 32);
}
